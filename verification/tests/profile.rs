use openvm_profiler::symbols::{ElfSymbol, SymbolKind};
use openvm_profiler::{FoldedProfile, Func, ProfileError};

fn func(start: u64, end: u64, label: &str) -> Func {
    Func { start, end, label: label.to_string() }
}

fn text(p: &FoldedProfile) -> String {
    let mut out = Vec::new();
    p.write(&mut out);
    String::from_utf8(out).unwrap()
}

fn run(p: &mut FoldedProfile, pcs: &[u32]) {
    for &pc in pcs {
        p.on_instruction(pc);
    }
}

/// Sum of the counts over all lines of a folded profile.
fn total(text: &str) -> u64 {
    text.lines()
        .map(|l| l.rsplit(' ').next().unwrap().parse::<u64>().unwrap())
        .sum()
}

fn two_funcs() -> FoldedProfile {
    FoldedProfile::from_functions(vec![func(0x100, 0x120, "a"), func(0x200, 0x220, "b")])
}

#[test]
fn empty_profile_writes_nothing() {
    let p = two_funcs();
    assert_eq!(text(&p), "");
}

#[test]
fn call_and_return_build_paths() {
    let mut p = two_funcs();
    // enter a, two instructions in a, call b, one instruction in b, back in a
    run(&mut p, &[0x100, 0x104, 0x108, 0x200, 0x204, 0x10c]);
    assert_eq!(text(&p), "a 4\na; b 2\n");
}

#[test]
fn samples_outside_functions_stay_on_the_root() {
    let mut p = two_funcs();
    // the root counts these, but the root has no line
    run(&mut p, &[0x10, 0x20]);
    assert_eq!(text(&p), "");
    run(&mut p, &[0x100]);
    assert_eq!(text(&p), "a 1\n");
}

#[test]
fn recursion_is_flattened() {
    let mut p = two_funcs();
    run(&mut p, &[0x100, 0x200, 0x100, 0x204, 0x100]);
    // re-entering a from b does not push a second frame for a
    assert_eq!(text(&p), "a 1\na; b 4\n");
}

#[test]
fn entry_address_of_the_top_function_is_not_in_its_body() {
    let mut p = two_funcs();
    run(&mut p, &[0x100, 0x100, 0x120]);
    // 0x120 is the end address, which still counts as inside
    assert_eq!(text(&p), "a 3\n");
}

#[test]
fn unknown_pc_keeps_the_stack() {
    let mut p = two_funcs();
    run(&mut p, &[0x100, 0x200, 0x9999]);
    assert_eq!(text(&p), "a 1\na; b 2\n");
}

#[test]
fn unwinds_to_the_deepest_covering_frame() {
    let mut p = FoldedProfile::from_functions(vec![
        func(0x100, 0x200, "outer"),
        func(0x300, 0x320, "mid"),
        func(0x400, 0x420, "leaf"),
    ]);
    run(&mut p, &[0x100, 0x300, 0x400, 0x404, 0x104]);
    assert_eq!(text(&p), "outer 2\nouter; mid 1\nouter; mid; leaf 2\n");
}

#[test]
fn same_path_is_one_line() {
    let mut p = two_funcs();
    run(&mut p, &[0x100, 0x200, 0x104, 0x200, 0x104]);
    assert_eq!(text(&p), "a 3\na; b 2\n");
}

#[test]
fn last_function_at_an_address_wins() {
    let mut p =
        FoldedProfile::from_functions(vec![func(0x100, 0x120, "first"), func(0x100, 0x110, "second")]);
    run(&mut p, &[0x100, 0x104]);
    assert_eq!(text(&p), "second 2\n");
}

#[test]
fn counts_are_written_in_decimal() {
    let mut p = two_funcs();
    run(&mut p, &[0x100]);
    for _ in 0..1234 {
        p.on_instruction(0x104);
    }
    assert_eq!(text(&p), "a 1235\n");
}

#[test]
fn every_instruction_is_counted_once() {
    let mut p = FoldedProfile::from_functions(vec![
        func(0x100, 0x200, "x"),
        func(0x300, 0x320, "y"),
        func(0x400, 0x420, "z"),
    ]);
    let pcs = [0x100, 0x104, 0x300, 0x400, 0x308, 0x400, 0x410, 0x108, 0x300, 0x304, 0x500, 0x104];
    run(&mut p, &pcs);
    let t = text(&p);
    assert_eq!(total(&t), pcs.len() as u64);
    // one line per call path
    let mut paths: Vec<&str> = t.lines().map(|l| l.rsplit_once(' ').unwrap().0).collect();
    let n = paths.len();
    paths.sort();
    paths.dedup();
    assert_eq!(paths.len(), n);
}

#[test]
fn write_appends_to_what_is_there() {
    let mut p = two_funcs();
    run(&mut p, &[0x100]);
    let mut out = b"head\n".to_vec();
    p.write(&mut out);
    assert_eq!(out, b"head\na 1\n".to_vec());
}

#[test]
fn labels_are_written_as_utf8() {
    let mut p = FoldedProfile::from_functions(vec![func(0x100, 0x120, "f\u{e9}e")]);
    run(&mut p, &[0x100]);
    assert_eq!(text(&p), "f\u{e9}e 1\n");
}

// ---- ELF images -------------------------------------------------------------

const STT_OBJECT: u8 = 1;
const STT_FUNC: u8 = 2;

/// A symbol to put in a test image: name, address, size, ELF symbol type.
struct Sym<'a>(&'a str, u64, u64, u8);

fn put16(b: &mut Vec<u8>, v: u16) {
    b.extend_from_slice(&v.to_le_bytes());
}
fn put32(b: &mut Vec<u8>, v: u32) {
    b.extend_from_slice(&v.to_le_bytes());
}
fn put64(b: &mut Vec<u8>, v: u64) {
    b.extend_from_slice(&v.to_le_bytes());
}

/// The string table and the offset of each name in it.
fn strtab(syms: &[Sym]) -> (Vec<u8>, Vec<u32>) {
    let mut tab = vec![0u8];
    let mut offs = Vec::new();
    for s in syms {
        offs.push(tab.len() as u32);
        tab.extend_from_slice(s.0.as_bytes());
        tab.push(0);
    }
    while tab.len() % 8 != 0 {
        tab.push(0);
    }
    (tab, offs)
}

/// A little-endian RISC-V ELF32 image with a symbol table and nothing else.
fn elf32(syms: &[Sym]) -> Vec<u8> {
    let (tab, offs) = strtab(syms);
    let symtab_off = 52u32;
    let symtab_size = 16 * (syms.len() as u32 + 1);
    let strtab_off = symtab_off + symtab_size;
    let shoff = strtab_off + tab.len() as u32;
    let mut b = vec![0x7f, b'E', b'L', b'F', 1, 1, 1, 0, 0, 0, 0, 0, 0, 0, 0, 0];
    put16(&mut b, 2);
    put16(&mut b, 243);
    put32(&mut b, 1);
    put32(&mut b, 0);
    put32(&mut b, 0);
    put32(&mut b, shoff);
    put32(&mut b, 0);
    put16(&mut b, 52);
    put16(&mut b, 32);
    put16(&mut b, 0);
    put16(&mut b, 40);
    put16(&mut b, 3);
    put16(&mut b, 2);
    b.extend_from_slice(&[0u8; 16]);
    for (s, off) in syms.iter().zip(offs) {
        put32(&mut b, off);
        put32(&mut b, s.1 as u32);
        put32(&mut b, s.2 as u32);
        b.push(0x10 | s.3);
        b.push(0);
        put16(&mut b, 0xfff1);
    }
    b.extend_from_slice(&tab);
    b.extend_from_slice(&[0u8; 40]);
    for v in [0, 2, 0, 0, symtab_off, symtab_size, 2, 1, 4, 16] {
        put32(&mut b, v);
    }
    for v in [0, 3, 0, 0, strtab_off, tab.len() as u32, 0, 0, 1, 0] {
        put32(&mut b, v);
    }
    b
}

/// A little-endian RISC-V ELF64 image with a symbol table and nothing else.
fn elf64(syms: &[Sym]) -> Vec<u8> {
    let (tab, offs) = strtab(syms);
    let symtab_off = 64u64;
    let symtab_size = 24 * (syms.len() as u64 + 1);
    let strtab_off = symtab_off + symtab_size;
    let shoff = strtab_off + tab.len() as u64;
    let mut b = vec![0x7f, b'E', b'L', b'F', 2, 1, 1, 0, 0, 0, 0, 0, 0, 0, 0, 0];
    put16(&mut b, 2);
    put16(&mut b, 243);
    put32(&mut b, 1);
    put64(&mut b, 0);
    put64(&mut b, 0);
    put64(&mut b, shoff);
    put32(&mut b, 0);
    put16(&mut b, 64);
    put16(&mut b, 56);
    put16(&mut b, 0);
    put16(&mut b, 64);
    put16(&mut b, 3);
    put16(&mut b, 2);
    b.extend_from_slice(&[0u8; 24]);
    for (s, off) in syms.iter().zip(offs) {
        put32(&mut b, off);
        b.push(0x10 | s.3);
        b.push(0);
        put16(&mut b, 0xfff1);
        put64(&mut b, s.1);
        put64(&mut b, s.2);
    }
    b.extend_from_slice(&tab);
    b.extend_from_slice(&[0u8; 64]);
    for (w, v) in [(4, 0), (4, 2), (8, 0), (8, 0), (8, symtab_off), (8, symtab_size), (4, 2), (4, 1), (8, 8), (8, 24)] {
        if w == 4 { put32(&mut b, v as u32) } else { put64(&mut b, v) }
    }
    for (w, v) in [(4, 0), (4, 3), (8, 0), (8, 0), (8, strtab_off), (8, tab.len() as u64), (4, 0), (4, 0), (8, 1), (8, 0)] {
        if w == 4 { put32(&mut b, v as u32) } else { put64(&mut b, v) }
    }
    b
}

/// Parses `image` from a buffer aligned for the ELF structures.
fn profile_of(image: &[u8]) -> Result<FoldedProfile, ProfileError> {
    let mut buf = vec![0u8; image.len() + 8];
    let shift = (8 - buf.as_ptr() as usize % 8) % 8;
    buf[shift..shift + image.len()].copy_from_slice(image);
    FoldedProfile::new(&buf[shift..shift + image.len()])
}

#[test]
fn new_reads_the_text_symbols_of_an_elf32_image() {
    let image = elf32(&[
        Sym("main", 0x100, 0x20, STT_FUNC),
        Sym("table", 0x1000, 0x40, STT_OBJECT),
        Sym("marker", 0x300, 0, STT_FUNC),
        Sym("helper", 0x200, 0x10, STT_FUNC),
    ]);
    let mut p = match profile_of(&image) {
        Ok(p) => p,
        Err(_) => panic!("image rejected"),
    };
    // 0x1000 is data and 0x300 a zero-sized symbol: neither is a function
    run(&mut p, &[0x100, 0x104, 0x200, 0x1000, 0x300, 0x108]);
    assert_eq!(text(&p), "main 3\nmain; helper 3\n");
}

#[test]
fn new_demangles_rust_and_cpp_names() {
    let image = elf32(&[
        Sym("_ZN8raytrace6render17h0123456789abcdefE", 0x100, 0x20, STT_FUNC),
        Sym("_Z3dotii", 0x200, 0x20, STT_FUNC),
    ]);
    let mut p = match profile_of(&image) {
        Ok(p) => p,
        Err(_) => panic!("image rejected"),
    };
    run(&mut p, &[0x100, 0x200]);
    assert_eq!(text(&p), "raytrace::render 1\nraytrace::render; dot(int, int) 1\n");
}

#[test]
fn new_reads_an_elf64_image() {
    let image = elf64(&[Sym("start", 0x8000_0000, 0x100, STT_FUNC)]);
    let mut p = match profile_of(&image) {
        Ok(p) => p,
        Err(_) => panic!("image rejected"),
    };
    run(&mut p, &[0x8000_0000, 0x8000_0010]);
    assert_eq!(text(&p), "start 2\n");
}

#[test]
fn new_refuses_a_range_past_the_address_space() {
    let image = elf64(&[Sym("wrap", u64::MAX - 0x10, 0x20, STT_FUNC)]);
    assert!(matches!(profile_of(&image), Err(ProfileError::SymbolRangeOverflow)));
}

#[test]
fn new_ignores_the_range_of_data_symbols() {
    let image = elf64(&[Sym("blob", u64::MAX - 0x10, 0x20, STT_OBJECT)]);
    let p = match profile_of(&image) {
        Ok(p) => p,
        Err(_) => panic!("image rejected"),
    };
    assert_eq!(text(&p), "");
}

#[test]
fn new_refuses_bytes_that_are_no_object_file() {
    assert!(matches!(FoldedProfile::new(b"not an elf file at all"), Err(ProfileError::Elf(_))));
    assert!(matches!(FoldedProfile::new(&[]), Err(ProfileError::Elf(_))));
}

#[test]
fn trie_only_grows() {
    let mut p = two_funcs();
    run(&mut p, &[0x100, 0x200, 0x204]);
    assert_eq!(text(&p), "a 1\na; b 2\n");
    // returning to a and moving on keeps the earlier paths and their counts
    run(&mut p, &[0x104, 0x9000]);
    assert_eq!(text(&p), "a 3\na; b 2\n");
    // never more lines than instructions
    assert!(text(&p).lines().count() <= 5);
}

#[test]
fn lines_follow_first_entry_order() {
    let mut p = FoldedProfile::from_functions(vec![
        func(0x100, 0x120, "a"),
        func(0x200, 0x220, "b"),
        func(0x300, 0x320, "c"),
    ]);
    // c is entered first, then a below it, then b below a; back up to c
    run(&mut p, &[0x300, 0x100, 0x200, 0x304, 0x100, 0x104]);
    assert_eq!(text(&p), "c 2\nc; a 3\nc; a; b 1\n");
}

#[test]
fn one_node_per_path_reached() {
    let mut p = two_funcs();
    assert_eq!(p.node_count(), 1);
    run(&mut p, &[0x100, 0x200, 0x104, 0x200, 0x104, 0x200]);
    // the root, a, and a; b
    assert_eq!(p.node_count(), 3);
    assert_eq!(text(&p), "a 3\na; b 3\n");
}

#[test]
fn stack_depth_is_bounded_by_the_functions() {
    let mut p = two_funcs();
    // entering a and b over and over never stacks more than two frames
    run(&mut p, &[0x100, 0x200, 0x100, 0x200, 0x100, 0x204]);
    let t = text(&p);
    assert!(t.lines().all(|l| l.matches("; ").count() <= 1));
    assert_eq!(t, "a 1\na; b 5\n");
}

#[test]
fn from_read_builds_the_profile_of_a_read_table() {
    let syms = vec![
        ElfSymbol { address: 0x100, size: 0x20, kind: SymbolKind::Text, name: Some("main".to_string()) },
        ElfSymbol { address: 0x200, size: 0x20, kind: SymbolKind::Data, name: Some("tbl".to_string()) },
    ];
    let mut p = match FoldedProfile::from_read(Ok(syms)) {
        Ok(p) => p,
        Err(_) => panic!("table refused"),
    };
    assert_eq!(p.node_count(), 1);
    run(&mut p, &[0x100, 0x104]);
    assert_eq!(text(&p), "main 2\n");
}

#[test]
fn from_read_refuses_an_overflowing_range() {
    let syms = vec![ElfSymbol { address: u64::MAX, size: 2, kind: SymbolKind::Text, name: None }];
    assert!(matches!(FoldedProfile::from_read(Ok(syms)), Err(ProfileError::SymbolRangeOverflow)));
}

#[test]
fn from_read_hands_on_the_reader_error() {
    let err = match object::File::parse(&b"no object"[..]) {
        Err(e) => e,
        Ok(_) => panic!("parsed"),
    };
    let expected = err.to_string();
    match FoldedProfile::from_read(Err(err)) {
        Err(ProfileError::Elf(e)) => assert_eq!(e.to_string(), expected),
        _ => panic!("reader error lost"),
    }
}
