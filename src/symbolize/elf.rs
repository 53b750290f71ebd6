//! The static symbol table of an ELF image, read through `elfloader`.
use vstd::prelude::*;
use vstd::slice::slice_subrange;
use vstd::utf8::valid_utf8;

use super::name::utf8_str;

verus! {

/// The `.symtab` entries of an ELF image, as (value, name) pairs in the
/// order they are stored, or nothing where the image does not parse or has
/// no symbol table.
pub uninterp spec fn elf_symbol_table(image: Seq<u8>) -> Option<Seq<(u64, Seq<char>)>>;

/// Little-endian integers at byte `at` of the image.
pub open spec fn le16(b: Seq<u8>, at: int) -> int {
    b[at] + 256 * b[at + 1]
}

pub open spec fn le32(b: Seq<u8>, at: int) -> int {
    le16(b, at) + 65536 * le16(b, at + 2)
}

pub open spec fn le64(b: Seq<u8>, at: int) -> int {
    le32(b, at) + 4294967296 * le32(b, at + 4)
}

/// Fields of the 64-bit ELF header.
pub open spec fn ph_offset(b: Seq<u8>) -> int {
    le64(b, 32)
}

pub open spec fn sh_offset_table(b: Seq<u8>) -> int {
    le64(b, 40)
}

pub open spec fn ph_entry_size(b: Seq<u8>) -> int {
    le16(b, 54)
}

pub open spec fn ph_count(b: Seq<u8>) -> int {
    le16(b, 56)
}

pub open spec fn sh_entry_size(b: Seq<u8>) -> int {
    le16(b, 58)
}

pub open spec fn sh_count(b: Seq<u8>) -> int {
    le16(b, 60)
}

pub open spec fn sh_names_index(b: Seq<u8>) -> int {
    le16(b, 62)
}

/// Fields of section header `i`.
pub open spec fn sh_at(b: Seq<u8>, i: int) -> int {
    sh_offset_table(b) + i * sh_entry_size(b)
}

pub open spec fn sh_name(b: Seq<u8>, i: int) -> int {
    le32(b, sh_at(b, i))
}

pub open spec fn sh_type(b: Seq<u8>, i: int) -> int {
    le32(b, sh_at(b, i) + 4)
}

pub open spec fn sh_data(b: Seq<u8>, i: int) -> int {
    le64(b, sh_at(b, i) + 24)
}

pub open spec fn sh_size(b: Seq<u8>, i: int) -> int {
    le64(b, sh_at(b, i) + 32)
}

pub open spec fn section_inside(b: Seq<u8>, i: int) -> bool {
    sh_data(b, i) + sh_size(b, i) <= b.len()
}

/// The string table at `[start, start + size)` holds, from index `idx`, a
/// NUL-terminated UTF-8 string.
pub open spec fn c_string_at(b: Seq<u8>, start: int, size: int, idx: int) -> bool {
    exists|p: int|
        start + idx <= p < start + size && b[p] == 0 && (forall|q: int|
            start + idx <= q < p ==> b[q] != 0) && valid_utf8(b.subrange(start + idx, p))
}

/// The string at `idx` of that table is `lit`.
pub open spec fn c_string_is(b: Seq<u8>, start: int, size: int, idx: int, lit: Seq<u8>) -> bool {
    &&& start + idx + lit.len() < start + size
    &&& b.subrange(start + idx, start + idx + lit.len()) == lit
    &&& b[start + idx + lit.len()] == 0
}

pub open spec fn section_named(b: Seq<u8>, i: int, lit: Seq<u8>) -> bool {
    let names = sh_names_index(b);
    c_string_is(b, sh_data(b, names), sh_size(b, names), sh_name(b, i), lit)
}

pub open spec fn symtab_name() -> Seq<u8> {
    seq![0x2eu8, 0x73, 0x79, 0x6d, 0x74, 0x61, 0x62]
}

pub open spec fn strtab_name() -> Seq<u8> {
    seq![0x2eu8, 0x73, 0x74, 0x72, 0x74, 0x61, 0x62]
}

/// A 64-bit ELF image whose symbol table can be read: every header lies in
/// the image, 8-byte aligned, with the standard entry sizes; no program
/// header is `PT_DYNAMIC`; section names are NUL-terminated UTF-8; each
/// `.symtab` is a whole number of entries inside the image at an 8-byte
/// aligned offset; and each entry's name is a NUL-terminated UTF-8 string
/// inside every `.strtab`.
pub open spec fn elf64_symbols_readable(b: Seq<u8>) -> bool {
    let names = sh_names_index(b);
    &&& b.len() >= 64
    &&& sh_entry_size(b) >= 64
    &&& sh_offset_table(b) % 8 == 0
    &&& sh_entry_size(b) % 8 == 0
    &&& sh_offset_table(b) + sh_count(b) * sh_entry_size(b) <= b.len()
    &&& sh_count(b) <= 0xff00
    &&& names < sh_count(b)
    &&& (ph_count(b) > 0 && ph_offset(b) > 0 && ph_entry_size(b) > 0) ==> {
        &&& ph_entry_size(b) >= 56
        &&& ph_offset(b) % 8 == 0
        &&& ph_entry_size(b) % 8 == 0
        &&& ph_offset(b) + ph_count(b) * ph_entry_size(b) <= b.len()
        &&& forall|i: int|
            0 <= i < ph_count(b) ==> le32(b, #[trigger] (ph_offset(b) + i * ph_entry_size(b)))
                != 2
    }
    &&& section_inside(b, names)
    &&& forall|i: int|
        0 <= i < sh_count(b) && #[trigger] sh_type(b, i) != 0 ==> c_string_at(
            b,
            sh_data(b, names),
            sh_size(b, names),
            sh_name(b, i),
        )
    &&& forall|i: int|
        0 <= i < sh_count(b) && #[trigger] section_named(b, i, symtab_name()) ==> symtab_ok(b, i)
}

/// Images the parser refuses at once: too short for an ELF identification,
/// without the ELF magic, of no known class, or 64-bit and too short for the
/// header.
pub open spec fn not_elf(b: Seq<u8>) -> bool {
    ||| b.len() < 16
    ||| b.subrange(0, 4) != seq![0x7fu8, 0x45, 0x4c, 0x46]
    ||| (b[4] != 1 && b[4] != 2)
    ||| (b[4] == 2 && b.len() < 64)
}

/// Images on which the parser returns rather than panics: too short to hold
/// an ELF identification, without the ELF magic, of no known class (these are
/// refused), or a 64-bit image that is too short for its header (refused) or
/// whose symbol table can be read.
pub open spec fn elf_image_readable(b: Seq<u8>) -> bool {
    ||| b.len() < 16
    ||| b.subrange(0, 4) != seq![0x7fu8, 0x45, 0x4c, 0x46]
    ||| (b[4] != 1 && b[4] != 2)
    ||| (b[4] == 2 && (b.len() < 64 || elf64_symbols_readable(b)))
}

fn le16_at(b: &[u8], at: u128) -> (r: u128)
    requires
        at + 2 <= b@.len(),
    ensures
        r == le16(b@, at as int),
        r < 0x1_0000,
{
    // Learn that the length of the slice fits in a usize.
    let _len: usize = b.len();
    b[at as usize] as u128 + 256 * (b[(at + 1) as usize] as u128)
}

fn le32_at(b: &[u8], at: u128) -> (r: u128)
    requires
        at + 4 <= b@.len(),
    ensures
        r == le32(b@, at as int),
        r < 0x1_0000_0000,
{
    // Learn that the length of the slice fits in a usize.
    let _len: usize = b.len();
    le16_at(b, at) + 65536 * le16_at(b, at + 2)
}

fn le64_at(b: &[u8], at: u128) -> (r: u128)
    requires
        at + 8 <= b@.len(),
    ensures
        r == le64(b@, at as int),
        r < 0x1_0000_0000_0000_0000,
{
    // Learn that the length of the slice fits in a usize.
    let _len: usize = b.len();
    le32_at(b, at) + 4294967296 * le32_at(b, at + 4)
}

fn mul16(x: u128, y: u128) -> (r: u128)
    requires
        x < 0x1_0000,
        y < 0x1_0000,
    ensures
        r == x * y,
        r < 0x1_0000_0000,
{
    assert(x * y < 0x1_0000_0000) by (nonlinear_arith)
        requires
            x < 0x1_0000,
            y < 0x1_0000,
            x >= 0,
            y >= 0,
    ;
    x * y
}

proof fn lemma_entry_inside(i: int, n: int, w: int)
    requires
        0 <= i < n,
        0 <= w,
    ensures
        0 <= i * w,
        i * w + w <= n * w,
{
    assert(0 <= i * w) by (nonlinear_arith)
        requires
            0 <= i,
            0 <= w,
    ;
    assert(i * w + w <= n * w) by (nonlinear_arith)
        requires
            i + 1 <= n,
            0 <= w,
    ;
}

proof fn lemma_record_inside(k: int, s: int)
    requires
        0 <= k < s / 24,
        0 <= s,
    ensures
        24 * k + 24 <= s,
{
    assert(24 * (s / 24) <= s) by (nonlinear_arith)
        requires
            0 <= s,
    ;
    assert(24 * k + 24 <= 24 * (s / 24)) by (nonlinear_arith)
        requires
            k + 1 <= s / 24,
    ;
}

/// Whether the table at `[start, start + size)` holds a NUL-terminated UTF-8
/// string from index `idx`.
fn c_string_ok(b: &[u8], start: u128, size: u128, idx: u128) -> (r: bool)
    requires
        start + size <= b@.len(),
    ensures
        r == c_string_at(b@, start as int, size as int, idx as int),
{
    // Learn that the length of the slice fits in a usize.
    let _len: usize = b.len();
    if idx >= size {
        return false;
    }
    let end: usize = (start + size) as usize;
    let from: usize = (start + idx) as usize;
    let mut p: usize = from;
    while p < end && b[p] != 0
        invariant
            from <= p <= end,
            end <= b@.len(),
            forall|q: int| from <= q < p ==> b@[q] != 0,
        decreases end - p,
    {
        p = p + 1;
    }
    if p == end {
        return false;
    }
    let ok = utf8_str(slice_subrange(b, from, p)).is_some();
    proof {
        assert forall|p2: int|
            from <= p2 < end && b@[p2] == 0 && (forall|q: int| from <= q < p2 ==> b@[q] != 0)
                implies p2 == p by {
            if p2 < p {
                assert(b@[p2] != 0);
            } else if p2 > p {
                assert(b@[p as int] != 0);
            }
        }
    }
    ok
}

/// Whether the string at `idx` of the table at `[start, start + size)` is `lit`.
fn c_string_equals(b: &[u8], start: u128, size: u128, idx: u128, lit: &Vec<u8>) -> (r: bool)
    requires
        start + size <= b@.len(),
        lit@.len() < 16,
    ensures
        r == c_string_is(b@, start as int, size as int, idx as int, lit@),
{
    // Learn that the length of the slice fits in a usize.
    let _len: usize = b.len();
    let n = lit.len() as u128;
    if idx >= size || idx + n >= size {
        return false;
    }
    let from = start + idx;
    let mut j: usize = 0;
    while j < lit.len()
        invariant
            from == start + idx,
            from + n < start + size,
            start + size <= b@.len(),
            b@.len() <= usize::MAX,
            n == lit@.len(),
            forall|q: int| 0 <= q < j ==> b@[from + q] == lit@[q],
        decreases lit@.len() - j,
    {
        if b[(from + j as u128) as usize] != lit[j] {
            proof {
                assert(b@.subrange(from as int, from + n)[j as int] != lit@[j as int]);
            }
            return false;
        }
        j = j + 1;
    }
    proof {
        assert(b@.subrange(from as int, from + n) =~= lit@);
    }
    b[(from + n) as usize] == 0
}

/// Checks `elf64_symbols_readable` on an image of at least 64 bytes.
fn elf64_readable(b: &[u8]) -> (r: bool)
    requires
        b@.len() >= 64,
    ensures
        r == elf64_symbols_readable(b@),
{
    let ghost g = b@;
    let len = b.len() as u128;
    let shoff = le64_at(b, 40);
    let shent = le16_at(b, 58);
    let shnum = le16_at(b, 60);
    let names = le16_at(b, 62);
    let phoff = le64_at(b, 32);
    let phent = le16_at(b, 54);
    let phnum = le16_at(b, 56);
    if !(shent >= 64 && shoff % 8 == 0 && shent % 8 == 0 && shoff + mul16(shnum, shent) <= len
        && shnum <= 0xff00 && names < shnum) {
        return false;
    }
    if phnum > 0 && phoff > 0 && phent > 0 {
        if !(phent >= 56 && phoff % 8 == 0 && phent % 8 == 0 && phoff + mul16(phnum, phent) <= len) {
            return false;
        }
        let mut i: u128 = 0;
        while i < phnum
            invariant
                phoff + phnum * phent <= len,
                len == g.len(),
                g == b@,
                phent >= 56,
                phnum > 0,
                phoff > 0,
                phent < 0x1_0000,
                phnum < 0x1_0000,
                phoff == ph_offset(g),
                phent == ph_entry_size(g),
                phnum == ph_count(g),
                i <= phnum,
                forall|j: int|
                    0 <= j < i ==> le32(g, #[trigger] (ph_offset(g) + j * ph_entry_size(g))) != 2,
            decreases phnum - i,
        {
            proof {
                lemma_entry_inside(i as int, phnum as int, phent as int);
            }
            if le32_at(b, phoff + mul16(i, phent)) == 2 {
                assert(le32(g, ph_offset(g) + i * ph_entry_size(g)) == 2);
                return false;
            }
            i = i + 1;
        }
    }
    let nat_at = shoff + mul16(names, shent);
    proof {
        lemma_entry_inside(names as int, shnum as int, shent as int);
    }
    let ndata = le64_at(b, nat_at + 24);
    let nsize = le64_at(b, nat_at + 32);
    if ndata + nsize > len {
        return false;
    }
    let mut i: u128 = 0;
    while i < shnum
        invariant
            shoff + shnum * shent <= len,
            len == g.len(),
            g == b@,
            shent >= 64,
            shent < 0x1_0000,
            shnum < 0x1_0000,
            names < shnum,
            shoff == sh_offset_table(g),
            shent == sh_entry_size(g),
            shnum == sh_count(g),
            names == sh_names_index(g),
            ndata == sh_data(g, names as int),
            nsize == sh_size(g, names as int),
            ndata + nsize <= len,
            i <= shnum,
            forall|j: int|
                0 <= j < i && #[trigger] sh_type(g, j) != 0 ==> c_string_at(
                    g,
                    ndata as int,
                    nsize as int,
                    sh_name(g, j),
                ),
        decreases shnum - i,
    {
        proof {
            lemma_entry_inside(i as int, shnum as int, shent as int);
        }
        let at = shoff + mul16(i, shent);
        if le32_at(b, at + 4) != 0 {
            if !c_string_ok(b, ndata, nsize, le32_at(b, at)) {
                assert(sh_type(g, i as int) != 0);
                assert(!c_string_at(
                    g,
                    sh_data(g, sh_names_index(g)),
                    sh_size(g, sh_names_index(g)),
                    sh_name(g, i as int),
                ));
                return false;
            }
        }
        i = i + 1;
    }
    let symtab: Vec<u8> = vec![0x2eu8, 0x73, 0x79, 0x6d, 0x74, 0x61, 0x62];
    let strtab: Vec<u8> = vec![0x2eu8, 0x73, 0x74, 0x72, 0x74, 0x61, 0x62];
    assert(symtab@ =~= symtab_name());
    assert(strtab@ =~= strtab_name());
    let mut i: u128 = 0;
    while i < shnum
        invariant
            shoff + shnum * shent <= len,
            len == g.len(),
            g == b@,
            shent >= 64,
            shent < 0x1_0000,
            shnum < 0x1_0000,
            names < shnum,
            shoff == sh_offset_table(g),
            shent == sh_entry_size(g),
            shnum == sh_count(g),
            names == sh_names_index(g),
            ndata == sh_data(g, names as int),
            nsize == sh_size(g, names as int),
            ndata + nsize <= len,
            symtab@ == symtab_name(),
            strtab@ == strtab_name(),
            i <= shnum,
            forall|j: int|
                0 <= j < i && #[trigger] section_named(g, j, symtab_name()) ==> symtab_ok(g, j),
        decreases shnum - i,
    {
        proof {
            lemma_entry_inside(i as int, shnum as int, shent as int);
        }
        let at = shoff + mul16(i, shent);
        if c_string_equals(b, ndata, nsize, le32_at(b, at), &symtab) {
            if !symtab_readable(b, i, &strtab) {
                assert(section_named(g, i as int, symtab_name()));
                return false;
            }
        }
        i = i + 1;
    }
    true
}

/// What `elf64_symbols_readable` asks of a section named `.symtab`.
pub open spec fn symtab_ok(b: Seq<u8>, i: int) -> bool {
    &&& sh_type(b, i) == 2
    &&& section_inside(b, i)
    &&& sh_size(b, i) % 24 == 0
    &&& sh_data(b, i) % 8 == 0
    &&& forall|t: int|
        0 <= t < sh_count(b) && sh_type(b, t) == 3 && #[trigger] section_named(
            b,
            t,
            strtab_name(),
        ) ==> section_inside(b, t) && forall|k: int|
            0 <= k < sh_size(b, i) / 24 ==> c_string_at(
                b,
                sh_data(b, t),
                sh_size(b, t),
                #[trigger] le32(b, sh_data(b, i) + 24 * k),
            )
}

fn symtab_readable(b: &[u8], i: u128, strtab: &Vec<u8>) -> (r: bool)
    requires
        b@.len() >= 64,
        sh_entry_size(b@) >= 64,
        sh_offset_table(b@) + sh_count(b@) * sh_entry_size(b@) <= b@.len(),
        i < sh_count(b@),
        sh_names_index(b@) < sh_count(b@),
        section_inside(b@, sh_names_index(b@)),
        strtab@ == strtab_name(),
    ensures
        r == symtab_ok(b@, i as int),
{
    let ghost g = b@;
    let len = b.len() as u128;
    let shoff = le64_at(b, 40);
    let shent = le16_at(b, 58);
    let shnum = le16_at(b, 60);
    let names = le16_at(b, 62);
    proof {
        lemma_entry_inside(i as int, shnum as int, shent as int);
        lemma_entry_inside(names as int, shnum as int, shent as int);
    }
    let at = shoff + mul16(i, shent);
    let data = le64_at(b, at + 24);
    let size = le64_at(b, at + 32);
    if !(le32_at(b, at + 4) == 2 && data + size <= len && size % 24 == 0 && data % 8 == 0) {
        return false;
    }
    let nat_at = shoff + mul16(names, shent);
    let ndata = le64_at(b, nat_at + 24);
    let nsize = le64_at(b, nat_at + 32);
    let count = size / 24;
    let mut t: u128 = 0;
    while t < shnum
        invariant
            shoff + shnum * shent <= len,
            len == g.len(),
            g == b@,
            shent >= 64,
            shent < 0x1_0000,
            shnum < 0x1_0000,
            names < shnum,
            shoff == sh_offset_table(g),
            shent == sh_entry_size(g),
            shnum == sh_count(g),
            names == sh_names_index(g),
            ndata == sh_data(g, names as int),
            nsize == sh_size(g, names as int),
            ndata + nsize <= len,
            data == sh_data(g, i as int),
            size == sh_size(g, i as int),
            count == size / 24,
            data + size <= len,
            strtab@ == strtab_name(),
            t <= shnum,
            forall|u: int|
                0 <= u < t && sh_type(g, u) == 3 && #[trigger] section_named(g, u, strtab_name())
                    ==> section_inside(g, u) && forall|k: int|
                    0 <= k < sh_size(g, i as int) / 24 ==> c_string_at(
                        g,
                        sh_data(g, u),
                        sh_size(g, u),
                        #[trigger] le32(g, sh_data(g, i as int) + 24 * k),
                    ),
        decreases shnum - t,
    {
        proof {
            lemma_entry_inside(t as int, shnum as int, shent as int);
        }
        let at_t = shoff + mul16(t, shent);
        if le32_at(b, at_t + 4) == 3 && c_string_equals(b, ndata, nsize, le32_at(b, at_t), strtab) {
            let tdata = le64_at(b, at_t + 24);
            let tsize = le64_at(b, at_t + 32);
            if tdata + tsize > len {
                assert(section_named(g, t as int, strtab_name()));
                assert(!section_inside(g, t as int));
                return false;
            }
            assert(section_named(g, t as int, strtab_name()));
            let mut k: u128 = 0;
            while k < count
                invariant
                    section_named(g, t as int, strtab_name()),
                    sh_type(g, t as int) == 3,
                    t < shnum,
                    shnum == sh_count(g),
                    strtab@ == strtab_name(),
                    len == g.len(),
                    g == b@,
                    data + size <= len,
                    tdata + tsize <= len,
                    count == size / 24,
                    data == sh_data(g, i as int),
                    size == sh_size(g, i as int),
                    tdata == sh_data(g, t as int),
                    tsize == sh_size(g, t as int),
                    k <= count,
                    forall|j: int|
                        0 <= j < k ==> c_string_at(
                            g,
                            tdata as int,
                            tsize as int,
                            #[trigger] le32(g, data + 24 * j),
                        ),
                decreases count - k,
            {
                proof {
                    lemma_record_inside(k as int, size as int);
                }
                if !c_string_ok(b, tdata, tsize, le32_at(b, data + 24 * k)) {
                    assert(section_named(g, t as int, strtab_name()));
                    assert(!c_string_at(
                        g,
                        sh_data(g, t as int),
                        sh_size(g, t as int),
                        le32(g, sh_data(g, i as int) + 24 * k),
                    ));
                    return false;
                }
                k = k + 1;
            }
        }
        t = t + 1;
    }
    true
}

/// Whether `elf_image_readable` holds of the image: whether the ELF parser
/// reads its symbol table without panicking.
pub fn image_readable(b: &[u8]) -> (r: bool)
    ensures
        r == elf_image_readable(b@),
{
    if b.len() < 16 {
        return true;
    }
    let magic = b[0] == 0x7f && b[1] == 0x45 && b[2] == 0x4c && b[3] == 0x46;
    if !magic {
        proof {
            if b@.subrange(0, 4) == seq![0x7fu8, 0x45, 0x4c, 0x46] {
                assert(b@.subrange(0, 4)[0] == b@[0]);
                assert(b@.subrange(0, 4)[1] == b@[1]);
                assert(b@.subrange(0, 4)[2] == b@[2]);
                assert(b@.subrange(0, 4)[3] == b@[3]);
            }
        }
        return true;
    }
    assert(b@.subrange(0, 4) =~= seq![0x7fu8, 0x45, 0x4c, 0x46]);
    if b[4] != 1 && b[4] != 2 {
        return true;
    }
    if b[4] == 1 {
        return false;
    }
    if b.len() < 64 {
        return true;
    }
    elf64_readable(b)
}

/// Relies on `elfloader::ElfBinary::new` to parse the image,
/// `ElfBinary::for_each_symbol` to walk its `.symtab` in order, and
/// `ElfBinary::symbol_name` with `Entry::value` to read each entry.
/// The parser reads the image in place by the offsets its headers hold and
/// indexes it without checks: `elf_image_readable` states the images it
/// returns on. It also asserts that the slice starts 8-byte aligned, which
/// `<*const u8>::align_offset` tests first: a slice that starts elsewhere
/// is not read.
#[verifier::external_body]
pub(crate) fn read_symbol_table(image: &[u8]) -> (r: Option<Vec<(u64, String)>>)
    requires
        elf_image_readable(image@),
    ensures
        elf_symbol_table(image@) is None ==> r is None,
        not_elf(image@) ==> r is None,
        r matches Some(v) ==> elf_symbol_table(image@) matches Some(t) && v@.len() == t.len()
            && forall|i: int|
            0 <= i < t.len() ==> (#[trigger] v@[i]).0 == t[i].0 && v@[i].1@ == t[i].1,
{
    if image.as_ptr().align_offset(8) != 0 {
        return None;
    }
    let binary = elfloader::ElfBinary::new(image).ok()?;
    let mut table = Vec::new();
    binary.for_each_symbol(|e| table.push((e.value(), binary.symbol_name(e).to_string()))).ok()?;
    Some(table)
}

} // verus!
