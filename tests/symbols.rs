use backtrace::{nearest_symbol, resolve, resolve_symbols, symbols_at, LineRecord, Symbol, SymbolName};

fn table(entries: &[(u64, &str)]) -> Vec<(u64, String)> {
    entries.iter().map(|(v, n)| (*v, n.to_string())).collect()
}

fn record(function: &str, file: &str, line: u64) -> LineRecord {
    LineRecord { function: Some(function.to_string()), file: Some(file.to_string()), line: Some(line) }
}

#[test]
fn nearest_entry_at_or_below() {
    let t = table(&[(0x300, "c"), (0x100, "a"), (0x200, "b")]);
    assert_eq!(nearest_symbol(&t, 0x250), Some(2));
    assert_eq!(nearest_symbol(&t, 0x200), Some(2));
    assert_eq!(nearest_symbol(&t, 0x1ff), Some(1));
    assert_eq!(nearest_symbol(&t, 0x5000), Some(0));
}

#[test]
fn nearest_entry_below_every_value_is_none() {
    let t = table(&[(0x300, "c"), (0x100, "a")]);
    assert_eq!(nearest_symbol(&t, 0xff), None);
    assert_eq!(nearest_symbol(&Vec::new(), 0x1000), None);
}

#[test]
fn nearest_entry_ties_keep_the_first() {
    let t = table(&[(0x100, "first"), (0x100, "second")]);
    assert_eq!(nearest_symbol(&t, 0x180), Some(0));
}

#[test]
fn fallback_gives_the_preceding_symbol() {
    let t = Some(table(&[(0x100, "alpha"), (0x200, "beta")]));
    let syms = resolve_symbols(&t, &Vec::new(), 0x150);
    assert_eq!(syms.len(), 1);
    let name = syms[0].name().unwrap();
    assert_eq!(name.as_bytes(), b"alpha");
    assert_eq!(syms[0].addr(), Some(0x100));
    assert_eq!(syms[0].filename(), None);
    assert_eq!(syms[0].lineno(), None);
}

#[test]
fn past_the_last_function_is_still_attributed_to_it() {
    let t = Some(table(&[(0x100, "alpha"), (0x200, "beta")]));
    let syms = resolve_symbols(&t, &Vec::new(), 0x9000);
    assert_eq!(syms[0].name().unwrap().as_bytes(), b"beta");
}

#[test]
fn no_match_below_every_symbol() {
    let t = Some(table(&[(0x100, "alpha"), (0x200, "beta")]));
    assert!(resolve_symbols(&t, &Vec::new(), 0x50).is_empty());
    assert!(resolve_symbols(&None, &Vec::new(), 0x150).is_empty());
}

#[test]
fn debug_info_takes_precedence() {
    let t = Some(table(&[(0x100, "alpha")]));
    let records = vec![record("inner", "src/a.rs", 12), record("outer", "src/b.rs", 40)];
    let syms = resolve_symbols(&t, &records, 0x150);
    assert_eq!(syms.len(), 2);
    assert_eq!(syms[0].name().unwrap().as_bytes(), b"inner");
    assert_eq!(syms[0].filename(), Some("src/a.rs"));
    assert_eq!(syms[0].lineno(), Some(12));
    assert_eq!(syms[0].addr(), None);
    assert_eq!(syms[1].name().unwrap().as_bytes(), b"outer");
    assert_eq!(syms[1].lineno(), Some(40));
}

#[test]
fn line_beyond_32_bits_is_absent() {
    let s = Symbol::new(None, Some("f.rs".to_string()), Some(1u64 << 33), None);
    assert_eq!(s.lineno(), None);
    let s = Symbol::new(None, None, Some(u32::MAX as u64), None);
    assert_eq!(s.lineno(), Some(u32::MAX));
    let s = Symbol::new(None, None, Some(u32::MAX as u64 + 1), None);
    assert_eq!(s.lineno(), None);
}

#[test]
fn symbol_without_name() {
    let s = Symbol::new(Some(7), None, None, None);
    assert!(s.name().is_none());
    assert_eq!(s.addr(), Some(7));
}

#[test]
fn unparseable_image_yields_nothing() {
    let image = [0u8; 64];
    assert!(symbols_at(&image, &Vec::new(), 0x1000).is_empty());
    let mut calls = 0;
    resolve(&image, 0x1000, |_s: &Symbol| calls += 1);
    assert_eq!(calls, 0);
}

#[test]
fn records_are_used_without_an_image() {
    let records = vec![record("f", "f.rs", 3)];
    let syms = symbols_at(&[], &records, 0x10);
    assert_eq!(syms.len(), 1);
    assert_eq!(syms[0].filename(), Some("f.rs"));
}

#[test]
fn rust_name_is_demangled() {
    let n = SymbolName::new(b"_ZN4test4mainE");
    assert_eq!(n.to_string(), "test::main");
    assert_eq!(n.as_str(), Some("_ZN4test4mainE"));
    assert_eq!(n.as_bytes(), b"_ZN4test4mainE");
}

#[test]
fn cpp_name_is_demangled() {
    let n = SymbolName::new(b"_Z3foov");
    assert_eq!(n.to_string(), "foo()");
    assert_eq!(n.as_str(), Some("_Z3foov"));
}

#[test]
fn display_is_stable() {
    let n = SymbolName::new(b"_ZN4test4mainE");
    assert_eq!(n.to_string(), n.to_string());
    let m = SymbolName::new(b"main");
    assert_eq!(m.to_string(), m.to_string());
}

#[test]
fn undemangled_name_displays_raw() {
    let n = SymbolName::new(b"main");
    assert_eq!(n.to_string(), "main");
    assert_eq!(n.as_str(), Some("main"));
}

#[test]
fn invalid_utf8_gets_replacement_characters() {
    let n = SymbolName::new(&[0x66, 0xff, 0x6f]);
    assert_eq!(n.to_string(), "f\u{FFFD}o");
    assert_eq!(n.as_str(), None);
    assert_eq!(n.as_bytes(), &[0x66, 0xff, 0x6f]);
}

#[test]
fn llvm_suffix_is_dropped_from_the_raw_name() {
    let n = SymbolName::new(b"_ZN4test4mainE.llvm.ABC123");
    assert_eq!(n.as_str(), Some("_ZN4test4mainE"));
    assert_eq!(n.to_string(), "test::main");
    assert_eq!(n.as_bytes(), b"_ZN4test4mainE.llvm.ABC123");
}
