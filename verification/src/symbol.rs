//! Names of functions: demangling, and the repair of Rust names that DTrace
//! demangled only in part.

use std::borrow::Cow;
use vstd::prelude::*;
use vstd::utf8::*;

verus! {

/// What the demangler makes of `name`, UTF-8 in and out: `None` where it
/// knows no mangling that `name` is written in.
pub uninterp spec fn demangled(name: Seq<u8>) -> Option<Seq<u8>>;

/// What an optional byte vector holds.
pub open spec fn held(v: Option<Vec<u8>>) -> Option<Seq<u8>> {
    match v {
        Some(bytes) => Some(bytes@),
        None => None,
    }
}

/// Calls `symbolic_demangle::demangle` on `name`. That function hands back
/// an owned string where one of its demanglers took the name, and the name
/// itself, borrowed, where none did; the first comes back here as `Some`,
/// the second as `None`. What the demangled name is, is not stated: it is
/// whatever `demangled` stands for, the same for the same name.
#[verifier::external_body]
pub(crate) fn demangle_symbol(name: &[u8]) -> (r: Option<Vec<u8>>)
    requires
        valid_utf8(name@),
    ensures
        held(r) == demangled(name@),
{
    match std::str::from_utf8(name) {
        Ok(ident) => match symbolic_demangle::demangle(ident) {
            Cow::Owned(text) => Some(text.into_bytes()),
            Cow::Borrowed(_) => None,
        },
        Err(_) => None,
    }
}

/// A hexadecimal digit, of either case.
pub open spec fn is_hex_digit(b: u8) -> bool {
    (0x30 <= b && b <= 0x39) || (0x41 <= b && b <= 0x46) || (0x61 <= b && b <= 0x66)
}

/// The length of the hash that ends a Rust name, with the `::` before it:
/// `::h` and sixteen digits.
pub const HASH_LEN: usize = 19;

/// `s` ends with the hash of a Rust name: `::h` and sixteen hexadecimal
/// digits.
pub open spec fn has_rust_hash(s: Seq<u8>) -> bool {
    let n = s.len() as int;
    &&& n >= 19
    &&& s[n - 19] == 0x3a
    &&& s[n - 18] == 0x3a
    &&& s[n - 17] == 0x68
    &&& forall|i: int| n - 16 <= i < n ==> is_hex_digit(#[trigger] s[i])
}

/// The byte that the escape `$a$` stands for.
pub open spec fn escape_1(a: u8) -> Option<u8> {
    if a == 0x43 {
        Some(0x2cu8)
    } else {
        None
    }
}

/// The byte that the escape `$ab$` stands for.
pub open spec fn escape_2(a: u8, b: u8) -> Option<u8> {
    if a == 0x53 && b == 0x50 {
        Some(0x40u8)
    } else if a == 0x42 && b == 0x50 {
        Some(0x2au8)
    } else if a == 0x52 && b == 0x46 {
        Some(0x26u8)
    } else if a == 0x4c && b == 0x54 {
        Some(0x3cu8)
    } else if a == 0x47 && b == 0x54 {
        Some(0x3eu8)
    } else if a == 0x4c && b == 0x50 {
        Some(0x28u8)
    } else if a == 0x52 && b == 0x50 {
        Some(0x29u8)
    } else {
        None
    }
}

/// The byte that the escape `$abc$` stands for: `a` is `u`, and `b` and `c`
/// are the two digits of one of the twelve code points that are known.
pub open spec fn escape_3(a: u8, b: u8, c: u8) -> Option<u8> {
    if a != 0x75 {
        None
    } else if b == 0x37 && c == 0x65 {
        Some(0x7eu8)
    } else if b == 0x32 && c == 0x30 {
        Some(0x20u8)
    } else if b == 0x32 && c == 0x37 {
        Some(0x27u8)
    } else if b == 0x33 && c == 0x64 {
        Some(0x3du8)
    } else if b == 0x35 && c == 0x62 {
        Some(0x5bu8)
    } else if b == 0x35 && c == 0x64 {
        Some(0x5du8)
    } else if b == 0x37 && c == 0x62 {
        Some(0x7bu8)
    } else if b == 0x37 && c == 0x64 {
        Some(0x7du8)
    } else if b == 0x33 && c == 0x62 {
        Some(0x3bu8)
    } else if b == 0x32 && c == 0x62 {
        Some(0x2bu8)
    } else if b == 0x32 && c == 0x31 {
        Some(0x21u8)
    } else if b == 0x32 && c == 0x32 {
        Some(0x22u8)
    } else {
        None
    }
}

/// The escape that `s` starts with: its length and the byte it stands for.
/// An escape is a `$`, a code of one to three bytes, and a `$`.
pub open spec fn escape_at(s: Seq<u8>) -> Option<(int, u8)> {
    if s.len() >= 3 && s[0] == 0x24 && s[2] == 0x24 && escape_1(s[1]) is Some {
        Some((3int, escape_1(s[1]).unwrap()))
    } else if s.len() >= 4 && s[0] == 0x24 && s[3] == 0x24 && escape_2(s[1], s[2]) is Some {
        Some((4int, escape_2(s[1], s[2]).unwrap()))
    } else if s.len() >= 5 && s[0] == 0x24 && s[4] == 0x24 && escape_3(s[1], s[2], s[3])
        is Some {
        Some((5int, escape_3(s[1], s[2], s[3]).unwrap()))
    } else {
        None
    }
}

/// The name that the escaped text `s` writes: `..` becomes `::`, an escape
/// becomes the byte it stands for, and from a `$` that starts no escape on
/// the text is kept as it is.
pub open spec fn unescaped(s: Seq<u8>) -> Seq<u8>
    decreases s.len(),
{
    if s.len() == 0 {
        s
    } else if s[0] == 0x2e {
        if s.len() >= 2 && s[1] == 0x2e {
            seq![0x3au8, 0x3au8] + unescaped(s.skip(2))
        } else {
            seq![0x2eu8] + unescaped(s.skip(1))
        }
    } else if s[0] == 0x24 {
        match escape_at(s) {
            Some((len, byte)) => seq![byte] + unescaped(s.skip(len)),
            None => s,
        }
    } else {
        seq![s[0]] + unescaped(s.skip(1))
    }
}

/// The escaped text of a name that ends with a hash: the name without the
/// hash, and without the `_` in front of a `$` that it starts with.
pub open spec fn escaped_part(s: Seq<u8>) -> Seq<u8> {
    let rest = s.take(s.len() - 19);
    if rest.len() >= 2 && rest[0] == 0x5f && rest[1] == 0x24 {
        rest.skip(1)
    } else {
        rest
    }
}

/// The repaired form of a Rust name that was demangled in part; `None` for a
/// name that does not end with a hash, which is left alone.
pub open spec fn repaired(s: Seq<u8>) -> Option<Seq<u8>> {
    if has_rust_hash(s) {
        Some(unescaped(escaped_part(s)))
    } else {
        None
    }
}

fn hex_digit(b: u8) -> (r: bool)
    ensures
        r == is_hex_digit(b),
{
    (0x30 <= b && b <= 0x39) || (0x41 <= b && b <= 0x46) || (0x61 <= b && b <= 0x66)
}

fn ends_with_hash(s: &[u8]) -> (r: bool)
    ensures
        r == has_rust_hash(s@),
{
    let n = s.len();
    if n < HASH_LEN {
        return false;
    }
    if s[n - 19] != 0x3a || s[n - 18] != 0x3a || s[n - 17] != 0x68 {
        return false;
    }
    let mut k: usize = n - 16;
    while k < n
        invariant
            n - 16 <= k <= n,
            n == s@.len(),
            n >= 19,
            forall|i: int| n - 16 <= i < k ==> is_hex_digit(#[trigger] s@[i]),
        decreases n - k,
    {
        if !hex_digit(s[k]) {
            return false;
        }
        k += 1;
    }
    true
}

fn code_1(a: u8) -> (r: Option<u8>)
    ensures
        r == escape_1(a),
{
    if a == 0x43 {
        Some(0x2c)
    } else {
        None
    }
}

fn code_2(a: u8, b: u8) -> (r: Option<u8>)
    ensures
        r == escape_2(a, b),
{
    if a == 0x53 && b == 0x50 {
        Some(0x40)
    } else if a == 0x42 && b == 0x50 {
        Some(0x2a)
    } else if a == 0x52 && b == 0x46 {
        Some(0x26)
    } else if a == 0x4c && b == 0x54 {
        Some(0x3c)
    } else if a == 0x47 && b == 0x54 {
        Some(0x3e)
    } else if a == 0x4c && b == 0x50 {
        Some(0x28)
    } else if a == 0x52 && b == 0x50 {
        Some(0x29)
    } else {
        None
    }
}

fn code_3(a: u8, b: u8, c: u8) -> (r: Option<u8>)
    ensures
        r == escape_3(a, b, c),
{
    if a != 0x75 {
        None
    } else if b == 0x37 && c == 0x65 {
        Some(0x7e)
    } else if b == 0x32 && c == 0x30 {
        Some(0x20)
    } else if b == 0x32 && c == 0x37 {
        Some(0x27)
    } else if b == 0x33 && c == 0x64 {
        Some(0x3d)
    } else if b == 0x35 && c == 0x62 {
        Some(0x5b)
    } else if b == 0x35 && c == 0x64 {
        Some(0x5d)
    } else if b == 0x37 && c == 0x62 {
        Some(0x7b)
    } else if b == 0x37 && c == 0x64 {
        Some(0x7d)
    } else if b == 0x33 && c == 0x62 {
        Some(0x3b)
    } else if b == 0x32 && c == 0x62 {
        Some(0x2b)
    } else if b == 0x32 && c == 0x31 {
        Some(0x21)
    } else if b == 0x32 && c == 0x32 {
        Some(0x22)
    } else {
        None
    }
}

/// The escape that starts at `k`: its length and the byte it stands for.
fn read_escape(s: &[u8], k: usize) -> (r: Option<(usize, u8)>)
    requires
        k < s@.len(),
    ensures
        match r {
            Some((len, byte)) => escape_at(s@.skip(k as int)) == Some((len as int, byte)) && k
                + len <= s@.len(),
            None => escape_at(s@.skip(k as int)) is None,
        },
{
    let n = s.len();
    let ghost t = s@.skip(k as int);
    assert(t[0] == s@[k as int]);
    if s[k] != 0x24 {
        return None;
    }
    if n - k >= 3 {
        assert(t[1] == s@[k + 1] && t[2] == s@[k + 2]);
        if s[k + 2] == 0x24 {
            if let Some(byte) = code_1(s[k + 1]) {
                return Some((3, byte));
            }
        }
    }
    if n - k >= 4 {
        assert(t[3] == s@[k + 3]);
        if s[k + 3] == 0x24 {
            if let Some(byte) = code_2(s[k + 1], s[k + 2]) {
                return Some((4, byte));
            }
        }
    }
    if n - k >= 5 {
        assert(t[4] == s@[k + 4]);
        if s[k + 4] == 0x24 {
            if let Some(byte) = code_3(s[k + 1], s[k + 2], s[k + 3]) {
                return Some((5, byte));
            }
        }
    }
    None
}

/// Repairs a Rust name that DTrace demangled only in part. A name that does
/// not end with a hash is none of these, and `None` comes back for it.
pub fn fix_partially_demangled_rust_symbol(symbol: &[u8]) -> (r: Option<Vec<u8>>)
    ensures
        held(r) == repaired(symbol@),
{
    if !ends_with_hash(symbol) {
        return None;
    }
    let n = symbol.len();
    let end = n - HASH_LEN;
    let from: usize = if end >= 2 && symbol[0] == 0x5f && symbol[1] == 0x24 {
        1
    } else {
        0
    };
    let ghost rest = escaped_part(symbol@);
    assert(rest =~= symbol@.subrange(from as int, end as int));
    let mut out: Vec<u8> = Vec::new();
    let mut k: usize = from;
    assert(rest.skip(0) =~= rest);
    loop
        invariant_except_break
            from <= k <= end,
            end <= symbol@.len(),
            rest == symbol@.subrange(from as int, end as int),
            unescaped(rest) == out@ + unescaped(rest.skip(k - from)),
        ensures
            out@ == unescaped(rest),
        decreases end - k,
    {
        let ghost t = rest.skip(k - from);
        let ghost before = out@;
        if k == end {
            assert(out@ + unescaped(t) =~= out@);
            break ;
        }
        assert(t[0] == symbol@[k as int]);
        let b = symbol[k];
        if b == 0x2e {
            if end - k >= 2 && symbol[k + 1] == 0x2e {
                assert(t[1] == symbol@[k + 1]);
                out.push(0x3a);
                out.push(0x3a);
                proof {
                    assert(t.skip(2) =~= rest.skip(k + 2 - from));
                    let tail = unescaped(t.skip(2));
                    assert(before + (seq![0x3au8, 0x3au8] + tail) =~= out@ + tail);
                }
                k += 2;
            } else {
                proof {
                    if end - k >= 2 {
                        assert(t[1] == symbol@[k + 1]);
                    }
                }
                out.push(0x2e);
                proof {
                    assert(t.skip(1) =~= rest.skip(k + 1 - from));
                    let tail = unescaped(t.skip(1));
                    assert(before + (seq![0x2eu8] + tail) =~= out@ + tail);
                }
                k += 1;
            }
        } else if b == 0x24 {
            let part = vstd::slice::slice_subrange(symbol, from, end);
            assert(part@ == rest);
            match read_escape(part, k - from) {
                Some((len, byte)) => {
                    out.push(byte);
                    proof {
                        assert(t.skip(len as int) =~= rest.skip(k + len - from));
                        let tail = unescaped(t.skip(len as int));
                        assert(before + (seq![byte] + tail) =~= out@ + tail);
                    }
                    k += len;
                },
                None => {
                    out.extend_from_slice(vstd::slice::slice_subrange(symbol, k, end));
                    assert(out@ =~= before + t);
                    break ;
                },
            }
        } else {
            out.push(b);
            proof {
                assert(t.skip(1) =~= rest.skip(k + 1 - from));
                let tail = unescaped(t.skip(1));
                assert(before + (seq![b] + tail) =~= out@ + tail);
            }
            k += 1;
        }
    }
    Some(out)
}

} // verus!
