//! The guest ELF's symbol table, and the labels of its functions.
//!
//! Reading the object file and demangling names are left to the `object`,
//! `rustc-demangle` and `cpp_demangle` crates; which symbols become profiled
//! functions, with which address ranges and labels, is decided here.

use object::{Object, ObjectSymbol};
use vstd::prelude::*;

use crate::profile::{Func, FuncInfo};

verus! {

#[verifier::external_type_specification]
#[verifier::external_body]
pub struct ExObjectError(object::Error);

/// The kind of a symbol, as the `object` crate classifies it.
#[derive(Clone, Copy, Debug, PartialEq, Eq, Structural)]
pub enum SymbolKind {
    Unknown,
    Text,
    Data,
    Section,
    File,
    Label,
    Tls,
    /// A kind that this library does not distinguish.
    Other,
}

/// One entry of an object file's symbol table.
pub struct ElfSymbol {
    pub address: u64,
    pub size: u64,
    pub kind: SymbolKind,
    /// The name, where it is valid UTF-8.
    pub name: Option<String>,
}

/// A symbol as plain values: address, size, kind and name.
pub type SymbolView = (u64, u64, SymbolKind, Option<Seq<char>>);

pub open spec fn opt_string_view(o: Option<String>) -> Option<Seq<char>> {
    match o {
        Some(s) => Some(s@),
        None => None,
    }
}

impl View for ElfSymbol {
    type V = SymbolView;

    open spec fn view(&self) -> SymbolView {
        (self.address, self.size, self.kind, opt_string_view(self.name))
    }
}

/// The symbol table that `object` reads from the bytes of an object file,
/// in the order of its symbol iterator. Of bytes that it cannot read, this
/// says nothing.
pub uninterp spec fn elf_symbol_table(elf: Seq<u8>) -> Seq<SymbolView>;

/// Calls `object::File::parse` on `elf` and lists `Object::symbols` of the
/// result, each as its `address`, `size`, `kind` and `name` (a name that is
/// not UTF-8 becomes `None`). The contract claims that a table that was read
/// is a function of the bytes, named `elf_symbol_table`, listed in order. It
/// says nothing of when the parser fails: besides malformed bytes, the
/// parser also refuses bytes that lie at an address not aligned for the ELF
/// structures.
#[verifier::external_body]
pub(crate) fn read_elf_symbols(elf: &[u8]) -> (res: Result<Vec<ElfSymbol>, object::Error>)
    ensures
        res matches Ok(v) ==> v@.map_values(|s: ElfSymbol| s@) == elf_symbol_table(elf@),
{
    let file = object::File::parse(elf)?;
    Ok(file.symbols().map(|s| ElfSymbol {
        address: s.address(), size: s.size(), name: s.name().ok().map(String::from),
        kind: match s.kind() {
            object::SymbolKind::Unknown => SymbolKind::Unknown,
            object::SymbolKind::Text => SymbolKind::Text,
            object::SymbolKind::Data => SymbolKind::Data,
            object::SymbolKind::Section => SymbolKind::Section,
            object::SymbolKind::File => SymbolKind::File,
            object::SymbolKind::Label => SymbolKind::Label,
            object::SymbolKind::Tls => SymbolKind::Tls,
            _ => SymbolKind::Other,
        },
    }).collect())
}

/// What `rustc_demangle::try_demangle` makes of a name, rendered with `{:#}`
/// (without the hash suffix); `None` where it is no Rust symbol.
pub uninterp spec fn rust_demangled(name: Seq<char>) -> Option<Seq<char>>;

/// What `cpp_demangle::Symbol::new` followed by `Symbol::demangle` with the
/// default options makes of a name; `None` where either of them fails.
pub uninterp spec fn cpp_demangled(name: Seq<char>) -> Option<Seq<char>>;

/// Calls `rustc_demangle::try_demangle` and formats a success with `{:#}`.
/// The contract claims only that the result is a function of the name.
#[verifier::external_body]
fn try_rust_demangle(name: &str) -> (res: Option<String>)
    ensures
        opt_string_view(res) == rust_demangled(name@),
{
    match rustc_demangle::try_demangle(name) {
        Ok(d) => Some(format!("{d:#}")),
        Err(_) => None,
    }
}

/// Calls `cpp_demangle::Symbol::new` and then `Symbol::demangle` with the
/// default options, the rendering that the symbol's `Display` also gives; a
/// rendering error yields `None` where `Display` would fail. The contract
/// claims only that the result is a function of the name.
#[verifier::external_body]
fn try_cpp_demangle(name: &str) -> (res: Option<String>)
    ensures
        opt_string_view(res) == cpp_demangled(name@),
{
    cpp_demangle::Symbol::new(name).ok()?.demangle(&cpp_demangle::DemangleOptions::default()).ok()
}

/// The label chosen from a name and its two demangled forms: the Rust form,
/// else the C++ form, else the name itself.
pub open spec fn choose_label(
    name: Seq<char>,
    rust: Option<Seq<char>>,
    cpp: Option<Seq<char>>,
) -> Seq<char> {
    match rust {
        Some(d) => d,
        None => match cpp {
            Some(d) => d,
            None => name,
        },
    }
}

/// The folded-frame label of a symbol name.
pub open spec fn label_of(name: Seq<char>) -> Seq<char> {
    choose_label(name, rust_demangled(name), cpp_demangled(name))
}

/// Picks a label from a name and what the two demanglers made of it.
pub fn pick_label(name: &str, rust: Option<String>, cpp: Option<String>) -> (label: String)
    ensures
        label@ == choose_label(name@, opt_string_view(rust), opt_string_view(cpp)),
        rust matches Some(d) ==> label@ == d@,
        rust is None ==> (cpp matches Some(d) ==> label@ == d@),
        rust is None && cpp is None ==> label@ == name@,
{
    match rust {
        Some(d) => d,
        None => match cpp {
            Some(d) => d,
            None => name.to_owned(),
        },
    }
}

/// Demangles a symbol name: as a Rust symbol, else as a C++ symbol, else the
/// name is kept as it is. The C++ demangler is only asked when the Rust one
/// declines.
pub fn demangle(name: &str) -> (label: String)
    ensures
        label@ == label_of(name@),
        rust_demangled(name@) matches Some(d) ==> label@ == d,
        rust_demangled(name@) is None ==> (cpp_demangled(name@) matches Some(d) ==> label@ == d),
        rust_demangled(name@) is None && cpp_demangled(name@) is None ==> label@ == name@,
{
    let rust = try_rust_demangle(name);
    if rust.is_some() {
        pick_label(name, rust, None)
    } else {
        let cpp = try_cpp_demangle(name);
        pick_label(name, None, cpp)
    }
}

/// The name used for a symbol whose name is not UTF-8.
pub open spec fn unnamed() -> Seq<char> {
    seq!['?', '?']
}

/// Whether a symbol becomes a profiled function: code with a known size.
pub open spec fn is_profiled(s: SymbolView) -> bool {
    s.2 == SymbolKind::Text && s.1 != 0
}

/// The function that a profiled symbol stands for: its range ends at its
/// address plus its size.
pub open spec fn func_of(s: SymbolView) -> FuncInfo {
    FuncInfo {
        start: s.0,
        end: (s.0 + s.1) as u64,
        label: label_of(
            match s.3 {
                Some(n) => n,
                None => unnamed(),
            },
        ),
    }
}

/// The functions of a symbol table, in table order.
pub open spec fn profiled_functions(syms: Seq<SymbolView>) -> Seq<FuncInfo>
    decreases syms.len(),
{
    if syms.len() == 0 {
        Seq::empty()
    } else {
        let rest = profiled_functions(syms.drop_last());
        if is_profiled(syms.last()) {
            rest.push(func_of(syms.last()))
        } else {
            rest
        }
    }
}

/// Whether every profiled symbol's end address fits in 64 bits.
pub open spec fn ranges_fit(syms: Seq<SymbolView>) -> bool {
    forall|i: int|
        0 <= i < syms.len() && is_profiled(#[trigger] syms[i]) ==> syms[i].0 + syms[i].1
            <= u64::MAX
}

/// Whether every profiled symbol's end address fits in 64 bits.
pub fn check_ranges(symbols: &Vec<ElfSymbol>) -> (ok: bool)
    ensures
        ok == ranges_fit(symbols@.map_values(|s: ElfSymbol| s@)),
{
    let ghost syms = symbols@.map_values(|s: ElfSymbol| s@);
    let mut i: usize = 0;
    while i < symbols.len()
        invariant
            i <= symbols.len(),
            syms == symbols@.map_values(|s: ElfSymbol| s@),
            forall|j: int|
                0 <= j < i && is_profiled(#[trigger] syms[j]) ==> syms[j].0 + syms[j].1
                    <= u64::MAX,
        decreases symbols.len() - i,
    {
        let s = &symbols[i];
        if s.kind == SymbolKind::Text && s.size != 0 && s.size > u64::MAX - s.address {
            assert(is_profiled(syms[i as int]));
            return false;
        }
        i += 1;
    }
    true
}

/// The profiled functions of a symbol table: every text symbol with a
/// nonzero size, in table order, with its range and demangled label.
pub fn text_functions(symbols: &Vec<ElfSymbol>) -> (funcs: Vec<Func>)
    requires
        ranges_fit(symbols@.map_values(|s: ElfSymbol| s@)),
    ensures
        funcs@.map_values(|f: Func| f.info()) == profiled_functions(
            symbols@.map_values(|s: ElfSymbol| s@),
        ),
{
    let ghost syms = symbols@.map_values(|s: ElfSymbol| s@);
    let mut funcs: Vec<Func> = Vec::new();
    let mut i: usize = 0;
    while i < symbols.len()
        invariant
            i <= symbols.len(),
            syms == symbols@.map_values(|s: ElfSymbol| s@),
            ranges_fit(syms),
            funcs@.map_values(|f: Func| f.info()) == profiled_functions(syms.take(i as int)),
        decreases symbols.len() - i,
    {
        let s = &symbols[i];
        assert(syms.take(i + 1).drop_last() =~= syms.take(i as int));
        if s.kind == SymbolKind::Text && s.size != 0 {
            assert(is_profiled(syms[i as int]));
            let label = match &s.name {
                Some(n) => {
                    let l = demangle(n.as_str());
                    assert(l@ == func_of(syms[i as int]).label);
                    l
                },
                None => {
                    proof {
                        reveal_strlit("??");
                    }
                    let l = demangle("??");
                    assert("??"@ == unnamed());
                    assert(l@ == func_of(syms[i as int]).label);
                    l
                },
            };
            let f = Func { start: s.address, end: s.address + s.size, label };
            assert(f.info() == func_of(syms[i as int]));
            funcs.push(f);
            assert(funcs@.map_values(|f: Func| f.info()) =~= profiled_functions(
                syms.take(i as int),
            ).push(func_of(syms[i as int])));
        }
        i += 1;
    }
    assert(syms.take(symbols.len() as int) =~= syms);
    funcs
}

/// How a label is chosen, for every name: the Rust demangling where there
/// is one, else the C++ demangling where there is one, else the whole name
/// unchanged.
pub proof fn lemma_label_choice(name: Seq<char>, rust: Option<Seq<char>>, cpp: Option<Seq<char>>)
    ensures
        rust matches Some(d) ==> choose_label(name, rust, cpp) == d,
        rust is None ==> (cpp matches Some(d) ==> choose_label(name, rust, cpp) == d),
        choose_label(name, None, None) == name,
        rust_demangled(name) is None && cpp_demangled(name) is None ==> label_of(name) == name,
        rust_demangled(name) matches Some(d) ==> label_of(name) == d,
        rust_demangled(name) is None ==> (cpp_demangled(name) matches Some(d) ==> label_of(name)
            == d),
{
}

} // verus!
