//! Bytes read as text: white space, trimming, numerals and lines.

use vstd::prelude::*;
use vstd::slice::slice_subrange;
use vstd::utf8::*;

verus! {

/// Asks `std::str::from_utf8` whether `bytes` are UTF-8: it returns `Ok` for
/// a slice that is valid UTF-8 and an error for any other.
#[verifier::external_body]
pub(crate) fn is_utf8(bytes: &[u8]) -> (ok: bool)
    ensures
        ok == valid_utf8(bytes@),
{
    std::str::from_utf8(bytes).is_ok()
}

/// White space of one byte: tab to carriage return, and space.
pub open spec fn is_ascii_space(b: u8) -> bool {
    (0x09 <= b && b <= 0x0d) || b == 0x20
}

/// White space of two bytes: U+0085 and U+00A0.
pub open spec fn is_narrow_space(a: u8, b: u8) -> bool {
    a == 0xc2 && (b == 0x85 || b == 0xa0)
}

/// White space of three bytes: U+1680, U+2000 to U+200A, U+2028, U+2029,
/// U+202F, U+205F and U+3000.
pub open spec fn is_wide_space(a: u8, b: u8, c: u8) -> bool {
    ||| (a == 0xe1 && b == 0x9a && c == 0x80)
    ||| (a == 0xe2 && b == 0x80 && ((0x80 <= c && c <= 0x8a) || c == 0xa8 || c == 0xa9 || c
        == 0xaf))
    ||| (a == 0xe2 && b == 0x81 && c == 0x9f)
    ||| (a == 0xe3 && b == 0x80 && c == 0x80)
}

/// The number of bytes of the white-space character that `s` starts with,
/// 0 if it starts with none.
pub open spec fn leading_space_len(s: Seq<u8>) -> int {
    if s.len() >= 1 && is_ascii_space(s[0]) {
        1
    } else if s.len() >= 2 && is_narrow_space(s[0], s[1]) {
        2
    } else if s.len() >= 3 && is_wide_space(s[0], s[1], s[2]) {
        3
    } else {
        0
    }
}

/// The number of bytes of the white-space character that `s` ends with,
/// 0 if it ends with none.
pub open spec fn trailing_space_len(s: Seq<u8>) -> int {
    let n = s.len() as int;
    if n >= 1 && is_ascii_space(s[n - 1]) {
        1
    } else if n >= 2 && is_narrow_space(s[n - 2], s[n - 1]) {
        2
    } else if n >= 3 && is_wide_space(s[n - 3], s[n - 2], s[n - 1]) {
        3
    } else {
        0
    }
}

/// `s` without the white space it starts with.
pub open spec fn trimmed_start(s: Seq<u8>) -> Seq<u8>
    decreases s.len(),
{
    let n = leading_space_len(s);
    if n > 0 {
        trimmed_start(s.skip(n))
    } else {
        s
    }
}

/// `s` without the white space it ends with.
pub open spec fn trimmed_end(s: Seq<u8>) -> Seq<u8>
    decreases s.len(),
{
    let n = trailing_space_len(s);
    if n > 0 {
        trimmed_end(s.take(s.len() - n))
    } else {
        s
    }
}

/// `s` without the white space at either end.
pub open spec fn trimmed(s: Seq<u8>) -> Seq<u8> {
    trimmed_end(trimmed_start(s))
}

/// A valid text stays valid when it is cut in front of a byte that starts a
/// character, or at its end.
pub proof fn lemma_utf8_cut(s: Seq<u8>, i: int)
    requires
        valid_utf8(s),
        0 <= i <= s.len(),
        i < s.len() ==> !is_continuation_byte(s[i]),
    ensures
        valid_utf8(s.take(i)),
        valid_utf8(s.skip(i)),
{
    if i == s.len() {
        is_char_boundary_start_end_of_seq(s);
    } else {
        is_char_boundary_iff_not_is_continuation_byte(s, i);
    }
    valid_utf8_split(s, i);
}

/// In a valid text the byte after an ASCII byte starts a character.
pub proof fn lemma_utf8_after_ascii(s: Seq<u8>, i: int)
    requires
        valid_utf8(s),
        0 <= i < s.len(),
        s[i] < 0x80,
    ensures
        i + 1 < s.len() ==> !is_continuation_byte(s[i + 1]),
        valid_utf8(s.take(i + 1)),
        valid_utf8(s.skip(i + 1)),
{
    lemma_utf8_cut(s, i);
    let t = s.skip(i);
    assert(t[0] == s[i]);
    assert(length_of_first_scalar(t) == 1);
    let u = pop_first_scalar(t);
    assert(valid_utf8(u));
    assert(u =~= s.skip(i + 1));
    if i + 1 < s.len() {
        assert(u[0] == s[i + 1]);
        assert(valid_first_scalar(u));
    }
    lemma_utf8_cut(s, i + 1);
}

/// A valid text that starts with white space is valid after it.
pub proof fn lemma_utf8_skip_space(s: Seq<u8>)
    requires
        valid_utf8(s),
        leading_space_len(s) > 0,
    ensures
        valid_utf8(s.skip(leading_space_len(s))),
{
    assert(pop_first_scalar(s) =~= s.skip(leading_space_len(s)));
}

/// The width of the white-space character at `k`, 0 if there is none.
pub fn space_at(line: &[u8], k: usize) -> (w: usize)
    requires
        k <= line@.len(),
    ensures
        w == leading_space_len(line@.skip(k as int)),
        k + w <= line@.len(),
{
    let n = line.len();
    let ghost s = line@.skip(k as int);
    if k < n && ((0x09 <= line[k] && line[k] <= 0x0d) || line[k] == 0x20) {
        assert(s[0] == line@[k as int]);
        return 1;
    }
    if n - k >= 2 {
        assert(s[0] == line@[k as int] && s[1] == line@[k + 1]);
        let a = line[k];
        let b = line[k + 1];
        if a == 0xc2 && (b == 0x85 || b == 0xa0) {
            return 2;
        }
        if n - k >= 3 {
            assert(s[2] == line@[k + 2]);
            let c = line[k + 2];
            if (a == 0xe1 && b == 0x9a && c == 0x80) || (a == 0xe2 && b == 0x80 && ((0x80 <= c
                && c <= 0x8a) || c == 0xa8 || c == 0xa9 || c == 0xaf)) || (a == 0xe2 && b == 0x81
                && c == 0x9f) || (a == 0xe3 && b == 0x80 && c == 0x80) {
                return 3;
            }
        }
    }
    0
}

/// The width of the white-space character that ends at `e`, 0 if there is
/// none.
pub fn space_before(line: &[u8], e: usize) -> (w: usize)
    requires
        e <= line@.len(),
    ensures
        w == trailing_space_len(line@.take(e as int)),
        w <= e,
{
    let ghost s = line@.take(e as int);
    if e >= 1 && ((0x09 <= line[e - 1] && line[e - 1] <= 0x0d) || line[e - 1] == 0x20) {
        assert(s[e - 1] == line@[e - 1]);
        return 1;
    }
    if e >= 2 {
        assert(s[e - 1] == line@[e - 1] && s[e - 2] == line@[e - 2]);
        let a = line[e - 2];
        let b = line[e - 1];
        if a == 0xc2 && (b == 0x85 || b == 0xa0) {
            return 2;
        }
        if e >= 3 {
            assert(s[e - 3] == line@[e - 3]);
            let a = line[e - 3];
            let b = line[e - 2];
            let c = line[e - 1];
            if (a == 0xe1 && b == 0x9a && c == 0x80) || (a == 0xe2 && b == 0x80 && ((0x80 <= c
                && c <= 0x8a) || c == 0xa8 || c == 0xa9 || c == 0xaf)) || (a == 0xe2 && b == 0x81
                && c == 0x9f) || (a == 0xe3 && b == 0x80 && c == 0x80) {
                return 3;
            }
        }
    }
    0
}

/// `line` without the white space it starts with.
pub fn trim_start(line: &[u8]) -> (rest: &[u8])
    ensures
        rest@ == trimmed_start(line@),
        valid_utf8(line@) ==> valid_utf8(rest@),
{
    let n = line.len();
    let mut k: usize = 0;
    assert(line@.skip(0) =~= line@);
    loop
        invariant
            k <= n,
            n == line@.len(),
            trimmed_start(line@) == trimmed_start(line@.skip(k as int)),
            valid_utf8(line@) ==> valid_utf8(line@.skip(k as int)),
        ensures
            leading_space_len(line@.skip(k as int)) == 0,
        decreases n - k,
    {
        let w = space_at(line, k);
        if w == 0 {
            break ;
        }
        proof {
            assert(line@.skip(k as int).skip(w as int) =~= line@.skip(k + w));
            if valid_utf8(line@) {
                lemma_utf8_skip_space(line@.skip(k as int));
            }
        }
        k += w;
    }
    slice_subrange(line, k, n)
}

/// `line` without the white space it ends with.
pub fn trim_end(line: &[u8]) -> (rest: &[u8])
    ensures
        rest@ == trimmed_end(line@),
        valid_utf8(line@) ==> valid_utf8(rest@),
{
    let mut e: usize = line.len();
    assert(line@.take(e as int) =~= line@);
    loop
        invariant
            e <= line@.len(),
            trimmed_end(line@) == trimmed_end(line@.take(e as int)),
            valid_utf8(line@) ==> valid_utf8(line@.take(e as int)),
        ensures
            trailing_space_len(line@.take(e as int)) == 0,
        decreases e,
    {
        let w = space_before(line, e);
        if w == 0 {
            break ;
        }
        proof {
            let s = line@.take(e as int);
            assert(s.take(s.len() - w) =~= line@.take(e - w));
            if valid_utf8(line@) {
                lemma_utf8_cut(s, e - w);
            }
        }
        e -= w;
    }
    slice_subrange(line, 0, e)
}

/// `line` without the white space at either end.
pub fn trim(line: &[u8]) -> (rest: &[u8])
    ensures
        rest@ == trimmed(line@),
        valid_utf8(line@) ==> valid_utf8(rest@),
{
    trim_end(trim_start(line))
}

/// A digit of a decimal numeral or, with `hex`, of a hexadecimal one.
pub open spec fn is_numeral_digit(b: u8, hex: bool) -> bool {
    (0x30 <= b && b <= 0x39) || (hex && ((0x41 <= b && b <= 0x46) || (0x61 <= b && b <= 0x66)))
}

/// What a digit stands for.
pub open spec fn digit_value(b: u8) -> nat {
    if 0x30 <= b && b <= 0x39 {
        (b - 0x30) as nat
    } else if 0x41 <= b && b <= 0x46 {
        (b - 0x41 + 10) as nat
    } else {
        (b - 0x61 + 10) as nat
    }
}

/// The base of a numeral.
pub open spec fn radix(hex: bool) -> nat {
    if hex {
        16
    } else {
        10
    }
}

/// Every byte of `s` is a digit.
pub open spec fn all_digits(s: Seq<u8>, hex: bool) -> bool {
    forall|i: int| 0 <= i < s.len() ==> is_numeral_digit(#[trigger] s[i], hex)
}

/// The number that the digits of `s` write.
pub open spec fn numeral_value(s: Seq<u8>, hex: bool) -> nat
    decreases s.len(),
{
    if s.len() == 0 {
        0
    } else {
        numeral_value(s.drop_last(), hex) * radix(hex) + digit_value(s.last())
    }
}

/// The number that `s` writes: one digit or more and nothing else, and a
/// value that a `usize` holds. `None` for anything else.
pub open spec fn parsed_unsigned(s: Seq<u8>, hex: bool) -> Option<usize> {
    if s.len() > 0 && all_digits(s, hex) && numeral_value(s, hex) <= usize::MAX {
        Some(numeral_value(s, hex) as usize)
    } else {
        None
    }
}

/// A longer numeral is not worth less than the one it starts with.
pub proof fn lemma_numeral_grows(s: Seq<u8>, k: int, hex: bool)
    requires
        0 <= k <= s.len(),
    ensures
        numeral_value(s.take(k), hex) <= numeral_value(s, hex),
    decreases s.len(),
{
    if k == s.len() {
        assert(s.take(k) =~= s);
    } else {
        lemma_numeral_grows(s.drop_last(), k, hex);
        assert(s.drop_last().take(k) =~= s.take(k));
        let v = numeral_value(s.drop_last(), hex);
        let r = radix(hex);
        assert(v * r >= v) by (nonlinear_arith)
            requires
                r >= 1,
                v >= 0,
        ;
    }
}

/// Reads a numeral, decimal or hexadecimal: digits and nothing else.
pub fn parse_unsigned(s: &[u8], hex: bool) -> (r: Option<usize>)
    ensures
        r == parsed_unsigned(s@, hex),
{
    let n = s.len();
    if n == 0 {
        return None;
    }
    let base: usize = if hex {
        16
    } else {
        10
    };
    let mut acc: usize = 0;
    let mut k: usize = 0;
    assert(s@.take(0) =~= Seq::<u8>::empty());
    while k < n
        invariant
            k <= n,
            n == s@.len(),
            base == radix(hex),
            all_digits(s@.take(k as int), hex),
            acc == numeral_value(s@.take(k as int), hex),
        decreases n - k,
    {
        let b = s[k];
        let ghost next = s@.take(k + 1);
        proof {
            assert(next.drop_last() =~= s@.take(k as int));
            assert(next.last() == b);
            assert(numeral_value(next, hex) == acc * radix(hex) + digit_value(b));
            lemma_numeral_grows(s@, k + 1, hex);
        }
        let v: usize = if 0x30 <= b && b <= 0x39 {
            (b - 0x30) as usize
        } else if hex && 0x41 <= b && b <= 0x46 {
            (b - 0x41 + 10) as usize
        } else if hex && 0x61 <= b && b <= 0x66 {
            (b - 0x61 + 10) as usize
        } else {
            assert(!is_numeral_digit(s@[k as int], hex));
            return None;
        };
        assert(v == digit_value(b));
        let shifted = match acc.checked_mul(base) {
            Some(m) => m,
            None => {
                return None;
            },
        };
        let sum = match shifted.checked_add(v) {
            Some(m) => m,
            None => {
                return None;
            },
        };
        assert forall|i: int| 0 <= i < next.len() implies is_numeral_digit(
            #[trigger] next[i],
            hex,
        ) by {
            if i < k {
                assert(next[i] == s@.take(k as int)[i]);
            }
        }
        acc = sum;
        k += 1;
    }
    assert(s@.take(k as int) =~= s@);
    Some(acc)
}

/// A text that is UTF-8 and holds no byte that starts a character of more
/// than one byte is ASCII.
pub proof fn lemma_utf8_plain(s: Seq<u8>)
    requires
        valid_utf8(s),
        forall|i: int| 0 <= i < s.len() ==> (#[trigger] s[i]) < 0x80 || is_continuation_byte(s[i]),
    ensures
        forall|i: int| 0 <= i < s.len() ==> (#[trigger] s[i]) < 0x80,
    decreases s.len(),
{
    if s.len() > 0 {
        assert(s[0] < 0x80 || is_continuation_byte(s[0]));
        assert(s[0] < 0x80);
        let t = s.skip(1);
        assert(pop_first_scalar(s) =~= t);
        assert forall|i: int| 0 <= i < t.len() implies (#[trigger] t[i]) < 0x80
            || is_continuation_byte(t[i]) by {
            assert(t[i] == s[i + 1]);
        }
        lemma_utf8_plain(t);
        assert forall|i: int| 0 <= i < s.len() implies (#[trigger] s[i]) < 0x80 by {
            if i > 0 {
                assert(s[i] == t[i - 1]);
            }
        }
    }
}

/// A text that starts with `i` ASCII spaces and then has a digit, or no
/// more, is trimmed at the front to what stands behind the spaces.
pub proof fn lemma_trimmed_start_run(s: Seq<u8>, i: int)
    requires
        0 <= i <= s.len(),
        forall|k: int| 0 <= k < i ==> is_ascii_space(#[trigger] s[k]),
        i < s.len() ==> is_numeral_digit(s[i], false),
    ensures
        trimmed_start(s) == s.skip(i),
    decreases i,
{
    if i == 0 {
        assert(s.skip(0) =~= s);
    } else {
        assert(is_ascii_space(s[0]));
        let t = s.skip(1);
        assert forall|k: int| 0 <= k < i - 1 implies is_ascii_space(#[trigger] t[k]) by {
            assert(t[k] == s[k + 1]);
        }
        lemma_trimmed_start_run(t, i - 1);
        assert(t.skip(i - 1) =~= s.skip(i));
    }
}

/// A text that ends with ASCII spaces from `j` on, behind a digit or behind
/// nothing, is trimmed at the end to what stands before the spaces.
pub proof fn lemma_trimmed_end_run(s: Seq<u8>, j: int)
    requires
        0 <= j <= s.len(),
        forall|k: int| j <= k < s.len() ==> is_ascii_space(#[trigger] s[k]),
        j > 0 ==> is_numeral_digit(s[j - 1], false),
    ensures
        trimmed_end(s) == s.take(j),
    decreases s.len() - j,
{
    if j == s.len() {
        assert(s.take(j) =~= s);
    } else {
        assert(is_ascii_space(s[s.len() - 1]));
        let t = s.take(s.len() - 1);
        assert forall|k: int| j <= k < t.len() implies is_ascii_space(#[trigger] t[k]) by {
            assert(t[k] == s[k]);
        }
        if j > 0 {
            assert(t[j - 1] == s[j - 1]);
        }
        lemma_trimmed_end_run(t, j);
        assert(t.take(j) =~= s.take(j));
    }
}

/// The length of the first line of `s`, its line feed included; all of `s`
/// if it holds no line feed.
pub open spec fn line_len(s: Seq<u8>) -> int
    decreases s.len(),
{
    if s.len() == 0 {
        0
    } else if s[0] == 0x0a {
        1
    } else {
        1 + line_len(s.skip(1))
    }
}

/// The first line of a text that is not empty has a byte at least and ends
/// with the first line feed.
pub proof fn lemma_line_len(s: Seq<u8>)
    ensures
        0 <= line_len(s) <= s.len(),
        s.len() > 0 ==> line_len(s) >= 1,
        forall|i: int| 0 <= i < line_len(s) - 1 ==> #[trigger] s[i] != 0x0a,
        line_len(s) < s.len() ==> s[line_len(s) - 1] == 0x0a,
    decreases s.len(),
{
    if s.len() > 0 && s[0] != 0x0a {
        let t = s.skip(1);
        lemma_line_len(t);
        assert forall|i: int| 0 <= i < line_len(s) - 1 implies #[trigger] s[i] != 0x0a by {
            if i > 0 {
                assert(s[i] == t[i - 1]);
            }
        }
        if line_len(s) < s.len() {
            assert(s[line_len(s) - 1] == t[line_len(t) - 1]);
        }
    }
}

/// The lines of a text, each with its line feed; the last one may lack it.
pub open spec fn lines(s: Seq<u8>) -> Seq<Seq<u8>>
    decreases s.len(),
{
    if s.len() == 0 {
        Seq::empty()
    } else {
        proof {
            lemma_line_len(s);
        }
        seq![s.take(line_len(s))] + lines(s.skip(line_len(s)))
    }
}

/// Where the line that starts at `pos` ends.
pub fn line_end(input: &[u8], pos: usize) -> (end: usize)
    requires
        pos <= input@.len(),
    ensures
        end == pos + line_len(input@.skip(pos as int)),
        pos <= end <= input@.len(),
{
    let n = input.len();
    let mut k: usize = pos;
    while k < n && input[k] != 0x0a
        invariant
            pos <= k <= n,
            n == input@.len(),
            pos + line_len(input@.skip(pos as int)) == k + line_len(input@.skip(k as int)),
        decreases n - k,
    {
        proof {
            let t = input@.skip(k as int);
            assert(t[0] == input@[k as int]);
            assert(t.skip(1) =~= input@.skip(k + 1));
        }
        k += 1;
    }
    proof {
        let t = input@.skip(k as int);
        if k < n {
            assert(t[0] == input@[k as int]);
        }
    }
    if k < n {
        k + 1
    } else {
        k
    }
}

/// Whether two texts hold the same bytes.
pub fn same_bytes(a: &[u8], b: &[u8]) -> (same: bool)
    ensures
        same == (a@ == b@),
{
    if a.len() != b.len() {
        return false;
    }
    let n = a.len();
    let mut k: usize = 0;
    while k < n
        invariant
            k <= n,
            n == a@.len(),
            n == b@.len(),
            forall|i: int| 0 <= i < k ==> a@[i] == b@[i],
        decreases n - k,
    {
        if a[k] != b[k] {
            return false;
        }
        k += 1;
    }
    assert(a@ =~= b@);
    true
}

} // verus!
