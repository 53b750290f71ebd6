use backtrace::{image_readable, resolve, symbols_at, Symbol};

fn put(buf: &mut Vec<u8>, bytes: &[u8]) {
    buf.extend_from_slice(bytes);
}

fn section(buf: &mut Vec<u8>, name: u32, kind: u32, offset: u64, size: u64, link: u32, entsize: u64) {
    put(buf, &name.to_le_bytes());
    put(buf, &kind.to_le_bytes());
    put(buf, &0u64.to_le_bytes());
    put(buf, &0u64.to_le_bytes());
    put(buf, &offset.to_le_bytes());
    put(buf, &size.to_le_bytes());
    put(buf, &link.to_le_bytes());
    put(buf, &0u32.to_le_bytes());
    put(buf, &1u64.to_le_bytes());
    put(buf, &entsize.to_le_bytes());
}

fn symbol(buf: &mut Vec<u8>, name: u32, value: u64) {
    put(buf, &name.to_le_bytes());
    put(buf, &[0x12, 0]);
    put(buf, &1u16.to_le_bytes());
    put(buf, &value.to_le_bytes());
    put(buf, &0x10u64.to_le_bytes());
}

/// A 64-bit ELF image with a symbol table of `alpha` at 0x1000 and `beta`
/// at 0x2000, after the null entry.
fn image() -> Vec<u8> {
    let strtab = b"\0alpha\0beta\0\0\0\0\0";
    let shstrtab = b"\0.symtab\0.strtab\0.shstrtab\0\0\0\0\0\0";
    let symtab_off: u64 = 64;
    let symtab_size: u64 = 3 * 24;
    let strtab_off = symtab_off + symtab_size;
    let shstrtab_off = strtab_off + strtab.len() as u64;
    let sh_off = shstrtab_off + shstrtab.len() as u64;

    let mut buf = Vec::with_capacity(1024);
    put(&mut buf, &[0x7f, b'E', b'L', b'F', 2, 1, 1, 0]);
    put(&mut buf, &[0; 8]);
    put(&mut buf, &2u16.to_le_bytes());
    put(&mut buf, &0x3eu16.to_le_bytes());
    put(&mut buf, &1u32.to_le_bytes());
    put(&mut buf, &0u64.to_le_bytes());
    put(&mut buf, &0u64.to_le_bytes());
    put(&mut buf, &sh_off.to_le_bytes());
    put(&mut buf, &0u32.to_le_bytes());
    put(&mut buf, &64u16.to_le_bytes());
    put(&mut buf, &56u16.to_le_bytes());
    put(&mut buf, &0u16.to_le_bytes());
    put(&mut buf, &64u16.to_le_bytes());
    put(&mut buf, &4u16.to_le_bytes());
    put(&mut buf, &3u16.to_le_bytes());
    assert_eq!(buf.len(), 64);

    put(&mut buf, &[0; 24]);
    symbol(&mut buf, 1, 0x1000);
    symbol(&mut buf, 7, 0x2000);
    put(&mut buf, strtab);
    put(&mut buf, shstrtab);
    assert_eq!(buf.len() as u64, sh_off);

    put(&mut buf, &[0; 64]);
    section(&mut buf, 1, 2, symtab_off, symtab_size, 2, 24);
    section(&mut buf, 9, 3, strtab_off, strtab.len() as u64, 0, 0);
    section(&mut buf, 17, 3, shstrtab_off, shstrtab.len() as u64, 0, 0);
    buf
}

#[test]
fn image_symbol_table_gives_the_preceding_symbol() {
    let img = image();
    let syms = symbols_at(&img, &Vec::new(), 0x1800);
    assert_eq!(syms.len(), 1);
    assert_eq!(syms[0].name().unwrap().as_bytes(), b"alpha");
    assert_eq!(syms[0].addr(), Some(0x1000));
    let syms = symbols_at(&img, &Vec::new(), 0x2000);
    assert_eq!(syms[0].name().unwrap().as_bytes(), b"beta");
}

#[test]
fn resolve_calls_back_once_for_a_table_match() {
    let img = image();
    let mut names = Vec::new();
    resolve(&img, 0x2345, |s: &Symbol| names.push(s.name().unwrap().to_string()));
    assert_eq!(names, vec!["beta".to_string()]);
}

#[test]
fn well_formed_image_is_readable() {
    assert!(image_readable(&image()));
    assert!(image_readable(&[0u8; 64]));
    assert!(image_readable(&[]));
}

#[test]
fn truncated_image_is_refused_without_panic() {
    let img = image();
    let cut = &img[..200];
    assert!(!image_readable(cut));
    assert!(symbols_at(cut, &Vec::new(), 0x1800).is_empty());
    let mut calls = 0;
    resolve(cut, 0x1800, |_s: &Symbol| calls += 1);
    assert_eq!(calls, 0);
}

#[test]
fn thirty_two_bit_image_is_refused() {
    let mut img = image();
    img[4] = 1;
    assert!(!image_readable(&img));
    assert!(symbols_at(&img, &Vec::new(), 0x1800).is_empty());
}

#[test]
fn misaligned_image_gives_no_symbol() {
    let mut shifted = vec![0u8];
    shifted.extend_from_slice(&image());
    assert!(image_readable(&shifted[1..]));
    assert!(symbols_at(&shifted[1..], &Vec::new(), 0x1800).is_empty());
}

#[test]
fn bad_symbol_name_index_is_refused() {
    let mut img = image();
    // The first real symbol's name index now points past `.strtab`.
    img[64 + 24] = 0xff;
    assert!(!image_readable(&img));
    assert!(symbols_at(&img, &Vec::new(), 0x1800).is_empty());
}
