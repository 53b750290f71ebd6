//! The symbol resolver: from an address and the bytes of the running image
//! to the symbols that describe it. Records from debug info come first; where
//! there are none, the symbol table's nearest entry at or below the address
//! stands in.
use vstd::prelude::*;

pub mod elf;
pub mod name;

use elf::{elf_image_readable, elf_symbol_table, image_readable, not_elf, read_symbol_table};
use name::SymbolName;

verus! {

/// A resolved symbol, as values.
pub struct SymbolView {
    pub addr: Option<u64>,
    pub file: Option<Seq<char>>,
    pub line: Option<u64>,
    pub name: Option<Seq<char>>,
}

/// What is known of the code at one address.
#[derive(Clone, Debug)]
pub struct Symbol {
    addr: Option<u64>,
    file: Option<String>,
    line: Option<u64>,
    name: Option<String>,
}

/// One frame that debug info gives for an address: the function, source
/// file and line, each where known. Several frames for one address describe
/// inlined calls, innermost first.
#[derive(Clone, Debug)]
pub struct LineRecord {
    pub function: Option<String>,
    pub file: Option<String>,
    pub line: Option<u64>,
}

pub open spec fn opt_text(o: Option<String>) -> Option<Seq<char>> {
    match o {
        Some(s) => Some(s@),
        None => None,
    }
}

impl View for Symbol {
    type V = SymbolView;

    closed spec fn view(&self) -> SymbolView {
        SymbolView {
            addr: self.addr,
            file: opt_text(self.file),
            line: self.line,
            name: opt_text(self.name),
        }
    }
}

/// The line number as it is reported: absent where it does not fit in 32 bits.
pub open spec fn reported_line(line: Option<u64>) -> Option<u32> {
    match line {
        Some(l) => if l <= u32::MAX {
            Some(l as u32)
        } else {
            None
        },
        None => None,
    }
}

impl Symbol {
    pub fn new(addr: Option<u64>, file: Option<String>, line: Option<u64>, name: Option<String>) -> (r: Symbol)
        ensures
            r@ == (SymbolView { addr, file: opt_text(file), line, name: opt_text(name) }),
    {
        Symbol { addr, file, line, name }
    }

    /// The name of the function, with its demangled form.
    pub fn name(&self) -> (r: Option<SymbolName>)
        ensures
            match self@.name {
                None => r is None,
                Some(n) => r matches Some(s) && s@ == vstd::utf8::encode_utf8(n),
            },
    {
        match &self.name {
            Some(n) => Some(SymbolName::new(n.as_str().as_bytes())),
            None => None,
        }
    }

    /// The starting address of the function.
    pub fn addr(&self) -> (r: Option<u64>)
        ensures
            r == self@.addr,
    {
        self.addr
    }

    /// The source file, where debug info gives one.
    pub fn filename(&self) -> (r: Option<&str>)
        ensures
            r is None <==> self@.file is None,
            r matches Some(s) ==> self@.file == Some(s@),
    {
        match &self.file {
            Some(f) => Some(f.as_str()),
            None => None,
        }
    }

    /// The line number, where debug info gives one that fits in 32 bits.
    pub fn lineno(&self) -> (r: Option<u32>)
        ensures
            r == reported_line(self@.line),
    {
        match self.line {
            Some(l) => if l > (u32::MAX as u64) {
                None
            } else {
                Some(l as u32)
            },
            None => None,
        }
    }
}

/// A symbol table's entries as values.
pub open spec fn table_view(t: Seq<(u64, String)>) -> Seq<(u64, Seq<char>)> {
    t.map_values(|e: (u64, String)| (e.0, e.1@))
}

/// Entry `i` has the greatest value not above `addr`, and no earlier entry
/// has that value.
pub open spec fn is_nearest(t: Seq<(u64, Seq<char>)>, addr: u64, i: int) -> bool {
    &&& 0 <= i < t.len()
    &&& t[i].0 <= addr
    &&& forall|j: int|
        0 <= j < t.len() && #[trigger] t[j].0 <= addr ==> t[j].0 <= t[i].0 && (j < i ==> t[j].0
            < t[i].0)
}

pub open spec fn record_symbol(r: LineRecord) -> SymbolView {
    SymbolView { addr: None, file: opt_text(r.file), line: r.line, name: opt_text(r.function) }
}

pub open spec fn table_symbol(e: (u64, Seq<char>)) -> SymbolView {
    SymbolView { addr: Some(e.0), file: None, line: None, name: Some(e.1) }
}

/// The symbols for `addr`: one per debug-info record where there are any,
/// else the nearest symbol-table entry at or below `addr`, else none.
pub open spec fn resolved(
    table: Option<Seq<(u64, Seq<char>)>>,
    records: Seq<LineRecord>,
    addr: u64,
) -> Seq<SymbolView> {
    if records.len() > 0 {
        records.map_values(|r: LineRecord| record_symbol(r))
    } else {
        match table {
            None => seq![],
            Some(t) => if exists|i: int| is_nearest(t, addr, i) {
                seq![table_symbol(t[choose|i: int| is_nearest(t, addr, i)])]
            } else {
                seq![]
            },
        }
    }
}

pub open spec fn symbols_view(s: Seq<Symbol>) -> Seq<SymbolView> {
    s.map_values(|x: Symbol| x@)
}

/// The index of the entry with the greatest value not above `addr`, the
/// first such where several share it; none where every value is above `addr`.
pub fn nearest_symbol(table: &Vec<(u64, String)>, addr: u64) -> (r: Option<usize>)
    ensures
        r matches Some(i) ==> is_nearest(table_view(table@), addr, i as int),
        r is None <==> forall|j: int| 0 <= j < table@.len() ==> (#[trigger] table@[j]).0 > addr,
{
    let ghost t = table_view(table@);
    let mut best: Option<usize> = None;
    let mut k: usize = 0;
    while k < table.len()
        invariant
            k <= table@.len(),
            t == table_view(table@),
            t.len() == table@.len(),
            best is None ==> forall|j: int| 0 <= j < k ==> (#[trigger] table@[j]).0 > addr,
            best matches Some(b) ==> {
                &&& b < k
                &&& t[b as int].0 <= addr
                &&& forall|j: int|
                    0 <= j < k && #[trigger] t[j].0 <= addr ==> t[j].0 <= t[b as int].0 && (j
                        < b ==> t[j].0 < t[b as int].0)
            },
        decreases table@.len() - k,
    {
        let v = table[k].0;
        assert(t[k as int].0 == v);
        if v <= addr {
            match best {
                None => {
                    best = Some(k);
                },
                Some(b) => {
                    if v > table[b].0 {
                        best = Some(k);
                    }
                },
            }
        }
        k = k + 1;
    }
    proof {
        if best is None {
            assert forall|j: int| 0 <= j < table@.len() implies (#[trigger] table@[j]).0 > addr by {
            }
        }
    }
    best
}

/// The symbols for `addr`, from the records that debug info gives for it
/// and from the image's symbol table: the records where there are any, else
/// the nearest entry of the table.
pub fn resolve_symbols(
    table: &Option<Vec<(u64, String)>>,
    records: &Vec<LineRecord>,
    addr: u64,
) -> (r: Vec<Symbol>)
    ensures
        symbols_view(r@) == resolved(
            match table {
                Some(t) => Some(table_view(t@)),
                None => None,
            },
            records@,
            addr,
        ),
{
    let mut out: Vec<Symbol> = Vec::new();
    if records.len() > 0 {
        let mut k: usize = 0;
        while k < records.len()
            invariant
                k <= records@.len(),
                out@.len() == k,
                forall|j: int| 0 <= j < k ==> (#[trigger] out@[j])@ == record_symbol(records@[j]),
            decreases records@.len() - k,
        {
            let rec = &records[k];
            out.push(Symbol::new(None, rec.file.clone(), rec.line, rec.function.clone()));
            k = k + 1;
        }
        assert(symbols_view(out@) =~= records@.map_values(|r: LineRecord| record_symbol(r)));
        return out;
    }
    match table {
        None => {
            assert(symbols_view(out@) =~= seq![]);
        },
        Some(t) => {
            let ghost tv = table_view(t@);
            match nearest_symbol(t, addr) {
                Some(i) => {
                    proof {
                        lemma_nearest_unique(tv, addr, i as int);
                    }
                    let e = &t[i];
                    out.push(Symbol::new(Some(e.0), None, None, Some(e.1.clone())));
                    assert(symbols_view(out@) =~= seq![table_symbol(tv[i as int])]);
                },
                None => {
                    assert forall|i: int| !is_nearest(tv, addr, i) by {
                        if 0 <= i < tv.len() {
                            assert(t@[i].0 > addr);
                        }
                    }
                    assert(symbols_view(out@) =~= seq![]);
                },
            }
        },
    }
    out
}

/// No two entries are the nearest one.
proof fn lemma_nearest_unique(t: Seq<(u64, Seq<char>)>, addr: u64, i: int)
    requires
        is_nearest(t, addr, i),
    ensures
        forall|j: int| is_nearest(t, addr, j) ==> j == i,
        (choose|j: int| is_nearest(t, addr, j)) == i,
{
    assert forall|j: int| is_nearest(t, addr, j) implies j == i by {
        assert(t[j].0 <= addr);
        assert(t[i].0 <= addr);
        if j < i {
            assert(t[j].0 < t[i].0);
            assert(t[i].0 <= t[j].0);
        } else if i < j {
            assert(t[i].0 < t[j].0);
            assert(t[j].0 <= t[i].0);
        }
    }
}

/// The symbols for `addr` in the image `binary`, given what debug info says
/// of `addr` in `records`. The symbol table is read only where there are no
/// records, and only from an image that `image_readable` accepts; an image
/// that is refused, does not parse, has no symbol table or does not start
/// 8-byte aligned gives no fallback symbol.
pub fn symbols_at(binary: &[u8], records: &Vec<LineRecord>, addr: u64) -> (r: Vec<Symbol>)
    ensures
        records@.len() > 0 ==> symbols_view(r@) == resolved(None, records@, addr),
        records@.len() == 0 && (!elf_image_readable(binary@) || not_elf(binary@)) ==> r@.len()
            == 0,
        symbols_view(r@) == resolved(elf_symbol_table(binary@), records@, addr) || r@.len() == 0,
{
    let table = if records.len() > 0 {
        None
    } else if image_readable(binary) {
        read_symbol_table(binary)
    } else {
        None
    };
    proof {
        if table is Some {
            assert(table_view(table->0@) =~= elf_symbol_table(binary@)->0);
        }
    }
    let r = resolve_symbols(&table, records, addr);
    assert(symbols_view(r@).len() == r@.len());
    r
}

/// Calls `cb` on each symbol that the symbol table of `binary` gives for
/// `addr`: at most one, the nearest entry at or below `addr`. An image that
/// cannot be read safely gives no call.
pub fn resolve<F: FnMut(&Symbol)>(binary: &[u8], addr: u64, cb: F)
    requires
        forall|s: &Symbol| call_requires(cb, (s,)),
{
    let mut cb = cb;
    let records: Vec<LineRecord> = Vec::new();
    let symbols = symbols_at(binary, &records, addr);
    let mut k: usize = 0;
    while k < symbols.len()
        invariant
            forall|s: &Symbol| call_requires(cb, (s,)),
        decreases symbols@.len() - k,
    {
        cb(&symbols[k]);
        k = k + 1;
    }
}

/// Where debug info has records for an address, they are all that is
/// resolved, one symbol per record with its file and line, and no
/// symbol-table entry is added.
pub proof fn lemma_debug_info_first(
    table: Option<Seq<(u64, Seq<char>)>>,
    records: Seq<LineRecord>,
    addr: u64,
)
    requires
        records.len() > 0,
    ensures
        resolved(table, records, addr).len() == records.len(),
        forall|i: int|
            0 <= i < records.len() ==> #[trigger] resolved(table, records, addr)[i]
                == record_symbol(records[i]),
{
}

/// With no debug info, an address strictly between the values of entries
/// `s1` and `s2`, where no entry's value lies between theirs and no other
/// entry shares `s1`'s value, resolves to exactly one symbol: `s1`'s name.
pub proof fn lemma_table_fallback(t: Seq<(u64, Seq<char>)>, addr: u64, s1: int, s2: int)
    requires
        0 <= s1 < t.len(),
        0 <= s2 < t.len(),
        t[s1].0 < addr < t[s2].0,
        forall|j: int| 0 <= j < t.len() ==> #[trigger] t[j].0 <= t[s1].0 || t[j].0 >= t[s2].0,
        forall|j: int| 0 <= j < t.len() && j != s1 ==> #[trigger] t[j].0 != t[s1].0,
    ensures
        resolved(Some(t), seq![], addr).len() == 1,
        resolved(Some(t), seq![], addr)[0].name == Some(t[s1].1),
        resolved(Some(t), seq![], addr)[0].addr == Some(t[s1].0),
{
    assert(is_nearest(t, addr, s1));
    lemma_nearest_unique(t, addr, s1);
}

/// With no debug info, an address below every entry of the table resolves to
/// nothing.
pub proof fn lemma_no_entry_below(t: Seq<(u64, Seq<char>)>, addr: u64)
    requires
        forall|j: int| 0 <= j < t.len() ==> addr < #[trigger] t[j].0,
    ensures
        resolved(Some(t), seq![], addr).len() == 0,
{
    assert forall|i: int| !is_nearest(t, addr, i) by {
        if 0 <= i < t.len() {
            assert(addr < t[i].0);
        }
    }
}

/// A line number of `2^33` is reported as absent, not cut to 32 bits.
pub proof fn lemma_large_line_absent(line: u64)
    requires
        line > u32::MAX,
    ensures
        reported_line(Some(line)) is None,
{
}

} // verus!
