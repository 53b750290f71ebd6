//! Symbol names: the raw bytes, and the demangled form that display uses.
use vstd::prelude::*;
use vstd::slice::slice_to_vec;
use vstd::string::StrSliceExecFns;
use vstd::utf8::{decode_utf8, valid_utf8};

verus! {

/// The result of Rust demangling on a name: the name that was demangled and
/// its readable form, or nothing where the name follows no Rust scheme.
pub uninterp spec fn rust_demangling(s: Seq<char>) -> Option<(Seq<char>, Seq<char>)>;

/// The readable form of a C++ mangled name, or nothing where it does not parse.
pub uninterp spec fn cpp_demangling(b: Seq<u8>) -> Option<Seq<char>>;

/// Bytes decoded as UTF-8, each invalid sequence replaced by U+FFFD.
pub uninterp spec fn utf8_lossy(b: Seq<u8>) -> Seq<char>;

/// Relies on `core::str::from_utf8`: a string exactly when the bytes are
/// valid UTF-8, holding the text they encode.
#[verifier::external_body]
pub(crate) fn utf8_str(b: &[u8]) -> (r: Option<&str>)
    ensures
        r is Some <==> valid_utf8(b@),
        r matches Some(s) ==> s@ == decode_utf8(b@),
{
    core::str::from_utf8(b).ok()
}

/// `t` is `s` itself, or `s` cut before a `.llvm.` that only hex digits and
/// `@` follow.
pub open spec fn llvm_trimmed(s: Seq<char>, t: Seq<char>) -> bool {
    ||| t == s
    ||| exists|i: int|
        0 <= i && i + 6 <= s.len() && t == s.subrange(0, i) && s.subrange(i, i + 6) == seq![
            '.',
            'l',
            'l',
            'v',
            'm',
            '.',
        ] && forall|j: int|
            i + 6 <= j < s.len() ==> ('A' <= #[trigger] s[j] <= 'F' || '0' <= s[j] <= '9' || s[j]
                == '@')
}

/// Relies on `rustc_demangle::try_demangle`, with `Demangle::as_str` for the
/// name that was demangled (the input, less an LLVM `.llvm.<hex>` suffix) and
/// its `Display` for the readable form.
#[verifier::external_body]
fn rust_demangle(s: &str) -> (r: Option<(String, String)>)
    ensures
        match rust_demangling(s@) {
            None => r is None,
            Some(p) => r matches Some(q) && q.0@ == p.0 && q.1@ == p.1,
        },
        r matches Some(q) ==> llvm_trimmed(s@, q.0@),
{
    match rustc_demangle::try_demangle(s) {
        Ok(d) => Some((d.as_str().to_string(), d.to_string())),
        Err(_) => None,
    }
}

/// Relies on `cpp_demangle::BorrowedSymbol::new` to parse a C++ mangled name
/// and on `Symbol::demangle` to write it out; a failure of either gives nothing.
#[verifier::external_body]
fn cpp_demangle(b: &[u8]) -> (r: Option<String>)
    ensures
        match cpp_demangling(b@) {
            None => r is None,
            Some(c) => r matches Some(s) && s@ == c,
        },
{
    match cpp_demangle::BorrowedSymbol::new(b) {
        Ok(sym) => sym.demangle().ok(),
        Err(_) => None,
    }
}

/// Bytes read as text: decoded where they are UTF-8, else with replacement
/// characters.
pub open spec fn raw_text(b: Seq<u8>) -> Seq<char> {
    if valid_utf8(b) {
        decode_utf8(b)
    } else {
        utf8_lossy(b)
    }
}

/// Relies on `String::from_utf8_lossy`: valid UTF-8 is decoded as it stands.
#[verifier::external_body]
fn lossy_string(b: &[u8]) -> (r: String)
    ensures
        valid_utf8(b@) ==> r@ == decode_utf8(b@),
        !valid_utf8(b@) ==> r@ == utf8_lossy(b@),
{
    String::from_utf8_lossy(b).into_owned()
}

/// Rust demangling of the bytes, where they are UTF-8.
pub open spec fn rust_form(b: Seq<u8>) -> Option<(Seq<char>, Seq<char>)> {
    if valid_utf8(b) {
        rust_demangling(decode_utf8(b))
    } else {
        None
    }
}

/// What a name displays as: its Rust demangling, else its C++ demangling,
/// else its bytes read as UTF-8 with replacement characters.
pub open spec fn display_form(b: Seq<u8>) -> Seq<char> {
    match rust_form(b) {
        Some(p) => p.1,
        None => match cpp_demangling(b) {
            Some(c) => c,
            None => raw_text(b),
        },
    }
}

/// The name as a string: the name that Rust demangling read, else the bytes
/// where they are UTF-8.
pub open spec fn str_form(b: Seq<u8>) -> Option<Seq<char>> {
    match rust_form(b) {
        Some(p) => Some(p.0),
        None => if valid_utf8(b) {
            Some(decode_utf8(b))
        } else {
            None
        },
    }
}

/// A symbol name: its raw bytes. Demangling is worked out when the name is
/// displayed or read as a string, not when it is made.
#[derive(Debug)]
pub struct SymbolName {
    bytes: Vec<u8>,
}

impl View for SymbolName {
    type V = Seq<u8>;

    closed spec fn view(&self) -> Seq<u8> {
        self.bytes@
    }
}

impl SymbolName {
    /// A name over a copy of the raw bytes.
    pub fn new(bytes: &[u8]) -> (r: SymbolName)
        ensures
            r@ == bytes@,
    {
        SymbolName { bytes: slice_to_vec(bytes) }
    }

    /// The name as a string, where it is UTF-8: the raw name, less an LLVM
    /// suffix where Rust demangling dropped one.
    pub fn as_str(&self) -> (r: Option<&str>)
        ensures
            r is Some <==> valid_utf8(self@),
            r matches Some(s) ==> llvm_trimmed(decode_utf8(self@), s@),
            r matches Some(s) ==> str_form(self@) == Some(s@),
            r is None ==> str_form(self@) is None,
    {
        match utf8_str(self.bytes.as_slice()) {
            None => None,
            Some(s) => match rust_demangle(s) {
                None => Some(s),
                Some(p) => {
                    let n = p.0.as_str().unicode_len();
                    proof {
                        if p.0@ != s@ {
                            let i = choose|i: int|
                                0 <= i && i + 6 <= s@.len() && p.0@ == s@.subrange(0, i)
                                    && s@.subrange(i, i + 6) == seq!['.', 'l', 'l', 'v', 'm', '.']
                                    && forall|j: int|
                                    i + 6 <= j < s@.len() ==> ('A' <= #[trigger] s@[j] <= 'F'
                                        || '0' <= s@[j] <= '9' || s@[j] == '@');
                            assert(n == i);
                        } else {
                            assert(s@.subrange(0, n as int) =~= s@);
                        }
                    }
                    Some(s.substring_char(0, n))
                },
            },
        }
    }

    /// The raw bytes of the name.
    pub fn as_bytes(&self) -> (r: &[u8])
        ensures
            r@ == self@,
    {
        self.bytes.as_slice()
    }

    /// The name as it is displayed: demangled where a scheme applies.
    pub fn to_string(&self) -> (r: String)
        ensures
            r@ == display_form(self@),
    {
        let rust = match utf8_str(self.bytes.as_slice()) {
            Some(s) => rust_demangle(s),
            None => None,
        };
        match rust {
            Some(p) => p.1,
            None => match cpp_demangle(self.bytes.as_slice()) {
                Some(c) => c,
                None => lossy_string(self.bytes.as_slice()),
            },
        }
    }
}

/// Two displays of one name give the same text; a name that neither scheme
/// demangles displays as its bytes, decoded exactly where they are UTF-8 and
/// with replacement characters where not.
pub proof fn lemma_display_is_stable(name: SymbolName, first: String, second: String)
    requires
        first@ == display_form(name@),
        second@ == display_form(name@),
    ensures
        first@ == second@,
        rust_form(name@) is None && cpp_demangling(name@) is None ==> {
            &&& valid_utf8(name@) ==> first@ == decode_utf8(name@)
            &&& !valid_utf8(name@) ==> first@ == utf8_lossy(name@)
        },
{
}

} // verus!
