//! One frame line made presentable: the offset cut off, the argument list of
//! a C++ name cut off, the function's name replaced, a chain of inlined calls
//! taken apart.

use vstd::prelude::*;
use vstd::slice::slice_subrange;
use vstd::slice::slice_to_vec;
use vstd::utf8::*;
use crate::text::{lemma_utf8_after_ascii, lemma_utf8_cut, trim_end, trimmed_end};

verus! {

pub const PLUS: u8 = 0x2b;

pub const MINUS: u8 = 0x2d;

pub const GREATER: u8 = 0x3e;

pub const LESS: u8 = 0x3c;

pub const PAREN: u8 = 0x28;

pub const COLON: u8 = 0x3a;

pub const SEMICOLON: u8 = 0x3b;

pub const BACKTICK: u8 = 0x60;

pub const LETTER_L: u8 = 0x4c;

/// The position of the first `b` in `s`; the length of `s` if it holds none.
pub open spec fn first_index_of(s: Seq<u8>, b: u8) -> int
    decreases s.len(),
{
    if s.len() == 0 || s[0] == b {
        0
    } else {
        1 + first_index_of(s.skip(1), b)
    }
}

/// The position of the last `b` in `s`; -1 if it holds none.
pub open spec fn last_index_of(s: Seq<u8>, b: u8) -> int
    decreases s.len(),
{
    if s.len() == 0 {
        -1
    } else if s.last() == b {
        s.len() - 1
    } else {
        last_index_of(s.drop_last(), b)
    }
}

/// The position of the first `a` that a `b` follows; the length of `s` if
/// there is none.
pub open spec fn first_pair(s: Seq<u8>, a: u8, b: u8) -> int
    decreases s.len(),
{
    if s.len() < 2 {
        s.len() as int
    } else if s[0] == a && s[1] == b {
        0
    } else {
        1 + first_pair(s.skip(1), a, b)
    }
}

/// At `i` stands a `b`, and an `a` right before it.
pub open spec fn pair_at(s: Seq<u8>, i: int, a: u8, b: u8) -> bool {
    0 < i < s.len() && s[i - 1] == a && s[i] == b
}

/// Somewhere in `s` a `b` follows an `a`.
pub open spec fn has_pair(s: Seq<u8>, a: u8, b: u8) -> bool {
    exists|i: int| pair_at(s, i, a, b)
}

/// `(` or `<`: what opens an argument list.
pub open spec fn is_open(b: u8) -> bool {
    b == PAREN || b == LESS
}

/// The position of the last `(` or `<` in `s`; -1 if it holds none.
pub open spec fn last_open(s: Seq<u8>) -> int
    decreases s.len(),
{
    if s.len() == 0 {
        -1
    } else if is_open(s.last()) {
        s.len() - 1
    } else {
        last_open(s.drop_last())
    }
}

/// `first_index_of` finds a `b`, and none stands before it.
pub proof fn lemma_first_index_of(s: Seq<u8>, b: u8)
    ensures
        0 <= first_index_of(s, b) <= s.len(),
        first_index_of(s, b) < s.len() ==> s[first_index_of(s, b)] == b,
        forall|i: int| 0 <= i < first_index_of(s, b) ==> #[trigger] s[i] != b,
    decreases s.len(),
{
    if s.len() > 0 && s[0] != b {
        let t = s.skip(1);
        lemma_first_index_of(t, b);
        assert forall|i: int| 0 <= i < first_index_of(s, b) implies #[trigger] s[i] != b by {
            if i > 0 {
                assert(s[i] == t[i - 1]);
            }
        }
        if first_index_of(s, b) < s.len() {
            assert(s[first_index_of(s, b)] == t[first_index_of(t, b)]);
        }
    }
}

/// `last_index_of` finds a `b`, and none stands behind it.
pub proof fn lemma_last_index_of(s: Seq<u8>, b: u8)
    ensures
        -1 <= last_index_of(s, b) < s.len(),
        last_index_of(s, b) >= 0 ==> s[last_index_of(s, b)] == b,
        forall|i: int| last_index_of(s, b) < i < s.len() ==> #[trigger] s[i] != b,
    decreases s.len(),
{
    if s.len() > 0 && s.last() != b {
        let t = s.drop_last();
        lemma_last_index_of(t, b);
        assert forall|i: int| last_index_of(s, b) < i < s.len() implies #[trigger] s[i] != b by {
            if i < t.len() {
                assert(s[i] == t[i]);
            }
        }
        if last_index_of(s, b) >= 0 {
            assert(s[last_index_of(s, b)] == t[last_index_of(t, b)]);
        }
    }
}

/// `first_pair` finds an `a` that a `b` follows, none stands before it, and
/// it finds one wherever there is one.
pub proof fn lemma_first_pair(s: Seq<u8>, a: u8, b: u8)
    ensures
        0 <= first_pair(s, a, b) <= s.len(),
        first_pair(s, a, b) < s.len() ==> pair_at(s, first_pair(s, a, b) + 1, a, b),
        forall|i: int| 0 < i <= first_pair(s, a, b) ==> !#[trigger] pair_at(s, i, a, b),
        has_pair(s, a, b) <==> first_pair(s, a, b) < s.len(),
    decreases s.len(),
{
    if s.len() >= 2 && !(s[0] == a && s[1] == b) {
        let t = s.skip(1);
        lemma_first_pair(t, a, b);
        let r = first_pair(s, a, b);
        assert forall|i: int| 0 < i <= r implies !#[trigger] pair_at(s, i, a, b) by {
            if i > 1 && i < s.len() {
                assert(!pair_at(t, i - 1, a, b));
                assert(s[i] == t[i - 1] && s[i - 1] == t[i - 2]);
            }
        }
        if r < s.len() {
            assert(pair_at(t, r, a, b));
            assert(s[r + 1] == t[r] && s[r] == t[r - 1]);
            assert(pair_at(s, r + 1, a, b));
        }
    }
    if !(first_pair(s, a, b) < s.len()) {
        assert forall|i: int| !pair_at(s, i, a, b) by {}
    }
}

/// `last_open` finds a `(` or a `<`, and neither stands behind it.
pub proof fn lemma_last_open(s: Seq<u8>)
    ensures
        -1 <= last_open(s) < s.len(),
        last_open(s) >= 0 ==> is_open(s[last_open(s)]),
        forall|i: int| last_open(s) < i < s.len() ==> !is_open(#[trigger] s[i]),
    decreases s.len(),
{
    if s.len() > 0 && !is_open(s.last()) {
        let t = s.drop_last();
        lemma_last_open(t);
        assert forall|i: int| last_open(s) < i < s.len() implies !is_open(#[trigger] s[i]) by {
            if i < t.len() {
                assert(s[i] == t[i]);
            }
        }
        if last_open(s) >= 0 {
            assert(s[last_open(s)] == t[last_open(t)]);
        }
    }
}

/// `s` up to its last `+`; all of `s` if it holds none.
pub open spec fn without_offset(s: Seq<u8>) -> Seq<u8> {
    let i = last_index_of(s, PLUS);
    if i < 0 {
        s
    } else {
        s.take(i)
    }
}

/// Cutting the offset off gives the name back: a name, a `+` and an offset
/// that holds no `+` lose the `+` and the offset.
pub proof fn lemma_offset_stripped(name: Seq<u8>, offset: Seq<u8>)
    requires
        !offset.contains(PLUS),
    ensures
        without_offset(name + seq![PLUS] + offset) == name,
{
    let s = name + seq![PLUS] + offset;
    let p = last_index_of(s, PLUS);
    lemma_last_index_of(s, PLUS);
    assert(s[name.len() as int] == PLUS);
    if p > name.len() {
        assert(s[p] == offset[p - name.len() - 1]);
    }
    assert(s.take(p) =~= name);
}

/// `s` up to the last `(` or `<` that stands behind its first `::`; all of
/// `s` if it holds no `::`, or neither of the two behind it.
pub open spec fn without_signature(s: Seq<u8>) -> Seq<u8> {
    let scope = first_pair(s, COLON, COLON);
    if scope >= s.len() {
        s
    } else {
        let open = last_open(s.skip(scope + 2));
        if open < 0 {
            s
        } else {
            s.take(scope + 2 + open)
        }
    }
}

/// `s` with `:` in the place of every `;`.
pub open spec fn colons(s: Seq<u8>) -> Seq<u8> {
    Seq::new(
        s.len(),
        |i: int|
            if s[i] == SEMICOLON {
                COLON
            } else {
                s[i]
            },
    )
}

/// `s` without the `L`s that it starts with.
pub open spec fn without_l(s: Seq<u8>) -> Seq<u8>
    decreases s.len(),
{
    if s.len() > 0 && s[0] == LETTER_L {
        without_l(s.skip(1))
    } else {
        s
    }
}

/// `_[i]`, the mark of a frame that stands for an inlined call.
pub open spec fn inline_tag() -> Seq<u8> {
    seq![0x5fu8, 0x5bu8, 0x69u8, 0x5du8]
}

/// The frame that one link of a chain of inlined calls becomes.
pub open spec fn inline_frame(piece: Seq<u8>, escape: bool, inlined: bool) -> Seq<u8> {
    let name = without_l(piece);
    let name = if escape {
        colons(name)
    } else {
        name
    };
    if inlined {
        name + inline_tag()
    } else {
        name
    }
}

/// The frames of the chain `s`, cut at every `->` from the left, the first
/// of them marked only if `inlined`.
pub open spec fn inline_frames_from(s: Seq<u8>, escape: bool, inlined: bool) -> Seq<Seq<u8>>
    decreases s.len(),
{
    let i = first_pair(s, MINUS, GREATER);
    if 0 <= i && i + 2 <= s.len() {
        seq![inline_frame(s.take(i), escape, inlined)] + inline_frames_from(
            s.skip(i + 2),
            escape,
            true,
        )
    } else {
        seq![inline_frame(s, escape, inlined)]
    }
}

/// The frames of the chain `s` in the order in which it names them: the
/// first as it is, each later one marked as inlined.
pub open spec fn inline_frames(s: Seq<u8>, escape: bool) -> Seq<Seq<u8>> {
    inline_frames_from(s, escape, false)
}

/// What the byte vectors of `v` hold.
pub open spec fn views(v: Seq<Vec<u8>>) -> Seq<Seq<u8>> {
    Seq::new(v.len(), |i: int| v[i]@)
}

/// Where the part of `frame` that names the function starts: behind the
/// first backtick. `None` if it holds no backtick.
pub open spec fn function_start(frame: Seq<u8>) -> Option<int> {
    let q = first_index_of(frame, BACKTICK);
    if q >= frame.len() {
        None
    } else {
        Some(q + 1)
    }
}

/// Where the text behind the function's name starts: at the last `+` behind
/// the backtick if the offset is kept and there is one, else at the end.
pub open spec fn function_resume(frame: Seq<u8>, keep_offset: bool) -> int {
    let start = function_start(frame).unwrap();
    let plus = last_index_of(frame.skip(start), PLUS);
    if keep_offset && plus >= 0 {
        start + plus
    } else {
        frame.len() as int
    }
}

/// The function's name in `frame`, for a transform to work on: what stands
/// between the first backtick and the offset or the end, without the white
/// space it ends with. `None` if `frame` holds no backtick.
pub open spec fn function_part(frame: Seq<u8>, keep_offset: bool) -> Option<Seq<u8>> {
    match function_start(frame) {
        None => None,
        Some(start) => Some(
            trimmed_end(frame.subrange(start, function_resume(frame, keep_offset))),
        ),
    }
}

/// `frame` with `name` in the place of its function part.
pub open spec fn with_function(frame: Seq<u8>, keep_offset: bool, name: Seq<u8>) -> Seq<u8> {
    let start = function_start(frame).unwrap();
    frame.take(start) + name + frame.skip(function_resume(frame, keep_offset))
}

/// What a frame becomes when the transform of its function part gave
/// `transformed`: the frame itself where there was nothing to transform or
/// the transform left the name alone.
pub open spec fn transformed_frame(
    frame: Seq<u8>,
    keep_offset: bool,
    transformed: Option<Seq<u8>>,
) -> Seq<u8> {
    if function_start(frame) is Some && transformed is Some {
        with_function(frame, keep_offset, transformed.unwrap())
    } else {
        frame
    }
}

/// The position of the first `b` in `s`, its length if there is none.
pub fn find_first(s: &[u8], b: u8) -> (r: usize)
    ensures
        r == first_index_of(s@, b),
        r <= s@.len(),
        r < s@.len() ==> s@[r as int] == b,
{
    let n = s.len();
    let mut k: usize = 0;
    assert(s@.skip(0) =~= s@);
    while k < n && s[k] != b
        invariant
            k <= n,
            n == s@.len(),
            first_index_of(s@, b) == k + first_index_of(s@.skip(k as int), b),
        decreases n - k,
    {
        proof {
            let t = s@.skip(k as int);
            assert(t[0] == s@[k as int]);
            assert(t.skip(1) =~= s@.skip(k + 1));
        }
        k += 1;
    }
    proof {
        if k < n {
            assert(s@.skip(k as int)[0] == s@[k as int]);
        }
    }
    k
}

/// The position of the last `b` in `s`.
pub fn find_last(s: &[u8], b: u8) -> (r: Option<usize>)
    ensures
        match r {
            Some(i) => i == last_index_of(s@, b) && i < s@.len() && s@[i as int] == b,
            None => last_index_of(s@, b) < 0,
        },
{
    let mut e: usize = s.len();
    assert(s@.take(e as int) =~= s@);
    while e > 0 && s[e - 1] != b
        invariant
            e <= s@.len(),
            last_index_of(s@, b) == last_index_of(s@.take(e as int), b),
        decreases e,
    {
        proof {
            let t = s@.take(e as int);
            assert(t.last() == s@[e - 1]);
            assert(t.drop_last() =~= s@.take(e - 1));
        }
        e -= 1;
    }
    proof {
        if e > 0 {
            assert(s@.take(e as int).last() == s@[e - 1]);
        }
    }
    if e == 0 {
        None
    } else {
        Some(e - 1)
    }
}

/// The position of the first `a` that a `b` follows, the length of `s` if
/// there is none.
pub fn find_pair(s: &[u8], a: u8, b: u8) -> (r: usize)
    ensures
        r == first_pair(s@, a, b),
        r <= s@.len(),
        r < s@.len() ==> r + 2 <= s@.len() && s@[r as int] == a && s@[r + 1] == b,
{
    let n = s.len();
    let mut k: usize = 0;
    assert(s@.skip(0) =~= s@);
    while k < n
        invariant
            k <= n,
            n == s@.len(),
            first_pair(s@, a, b) == k + first_pair(s@.skip(k as int), a, b),
        decreases n - k,
    {
        let ghost t = s@.skip(k as int);
        if n - k < 2 {
            return n;
        }
        assert(t[0] == s@[k as int] && t[1] == s@[k + 1]);
        if s[k] == a && s[k + 1] == b {
            return k;
        }
        assert(t.skip(1) =~= s@.skip(k + 1));
        k += 1;
    }
    n
}

/// Cuts the offset off a frame line and says what else the line holds: a
/// `->`, a `::`, a `;`. One pass over the line.
pub fn remove_offset(line: &[u8]) -> (r: (bool, bool, bool, &[u8]))
    ensures
        r.0 == has_pair(line@, MINUS, GREATER),
        r.1 == has_pair(line@, COLON, COLON),
        r.2 == line@.contains(SEMICOLON),
        r.3@ == without_offset(line@),
        valid_utf8(line@) ==> valid_utf8(r.3@),
{
    let n = line.len();
    let mut has_inlines = false;
    let mut could_be_cpp = false;
    let mut has_semicolon = false;
    let mut last_offset: usize = n;
    let mut k: usize = 0;
    assert(line@.take(0) =~= Seq::<u8>::empty());
    while k < n
        invariant
            k <= n,
            n == line@.len(),
            has_inlines == exists|i: int| i < k && pair_at(line@, i, MINUS, GREATER),
            could_be_cpp == exists|i: int| i < k && pair_at(line@, i, COLON, COLON),
            has_semicolon == exists|i: int| 0 <= i < k && #[trigger] line@[i] == SEMICOLON,
            last_offset == (if last_index_of(line@.take(k as int), PLUS) < 0 {
                n as int
            } else {
                last_index_of(line@.take(k as int), PLUS)
            }),
        decreases n - k,
    {
        let b = line[k];
        proof {
            let t = line@.take(k + 1);
            assert(t.last() == b);
            assert(t.drop_last() =~= line@.take(k as int));
        }
        if b == GREATER && k > 0 && line[k - 1] == MINUS {
            assert(pair_at(line@, k as int, MINUS, GREATER));
            has_inlines = true;
        } else if b == COLON && k > 0 && line[k - 1] == COLON {
            assert(pair_at(line@, k as int, COLON, COLON));
            could_be_cpp = true;
        } else if b == SEMICOLON {
            has_semicolon = true;
        } else if b == PLUS {
            last_offset = k;
        }
        k += 1;
    }
    proof {
        assert(line@.take(n as int) =~= line@);
        lemma_last_index_of(line@, PLUS);
        if valid_utf8(line@) {
            lemma_utf8_cut(line@, last_offset as int);
        }
        if has_pair(line@, MINUS, GREATER) {
            let i = choose|i: int| pair_at(line@, i, MINUS, GREATER);
            assert(i < k && pair_at(line@, i, MINUS, GREATER));
        }
        if has_pair(line@, COLON, COLON) {
            let i = choose|i: int| pair_at(line@, i, COLON, COLON);
            assert(i < k && pair_at(line@, i, COLON, COLON));
        }
    }
    (has_inlines, could_be_cpp, has_semicolon, slice_subrange(line, 0, last_offset))
}

/// Cuts the argument list off a C++ name: what follows the last `(` or `<`
/// behind the first `::`, and that byte too.
pub fn uncpp(probe: &[u8]) -> (r: &[u8])
    ensures
        r@ == without_signature(probe@),
        valid_utf8(probe@) ==> valid_utf8(r@),
{
    let n = probe.len();
    let scope = find_pair(probe, COLON, COLON);
    if scope >= n {
        return probe;
    }
    let from = scope + 2;
    let ghost rest = probe@.skip(from as int);
    let mut e: usize = n;
    assert(rest.take(n - from) =~= rest);
    while e > from && !(probe[e - 1] == PAREN || probe[e - 1] == LESS)
        invariant
            from <= e <= n,
            n == probe@.len(),
            rest == probe@.skip(from as int),
            last_open(rest) == last_open(rest.take(e - from)),
        decreases e,
    {
        proof {
            let t = rest.take(e - from);
            assert(t.last() == probe@[e - 1]);
            assert(t.drop_last() =~= rest.take(e - from - 1));
        }
        e -= 1;
    }
    if e == from {
        return probe;
    }
    proof {
        let t = rest.take(e - from);
        assert(t.last() == probe@[e - 1]);
        if valid_utf8(probe@) {
            lemma_utf8_cut(probe@, e - 1);
        }
    }
    slice_subrange(probe, 0, e - 1)
}

/// The function's name in `frame`, for a transform to work on.
pub fn split_function(frame: &[u8], keep_offset: bool) -> (r: Option<&[u8]>)
    ensures
        match r {
            Some(name) => function_part(frame@, keep_offset) == Some(name@),
            None => function_part(frame@, keep_offset) is None,
        },
        valid_utf8(frame@) && r is Some ==> valid_utf8(r.unwrap()@),
{
    let n = frame.len();
    let q = find_first(frame, BACKTICK);
    if q >= n {
        return None;
    }
    let start = q + 1;
    let func = slice_subrange(frame, start, n);
    assert(func@ =~= frame@.skip(start as int));
    let resume = resume_at(frame, start, keep_offset);
    let name = slice_subrange(frame, start, resume);
    proof {
        if valid_utf8(frame@) {
            lemma_utf8_after_ascii(frame@, q as int);
            lemma_utf8_cut(func@, resume - start);
            assert(func@.take(resume - start) =~= name@);
        }
    }
    Some(trim_end(name))
}

/// Where the text behind the function's name starts, the name starting at
/// `start`.
fn resume_at(frame: &[u8], start: usize, keep_offset: bool) -> (resume: usize)
    requires
        function_start(frame@) == Some(start as int),
    ensures
        resume == function_resume(frame@, keep_offset),
        start <= resume <= frame@.len(),
        resume < frame@.len() ==> frame@[resume as int] == PLUS,
{
    let n = frame.len();
    proof {
        lemma_first_index_of(frame@, BACKTICK);
    }
    if !keep_offset {
        return n;
    }
    let func = slice_subrange(frame, start, n);
    assert(func@ =~= frame@.skip(start as int));
    match find_last(func, PLUS) {
        Some(i) => start + i,
        None => n,
    }
}

/// Puts the transformed name of a function back into its frame. With
/// `None`, which stands for a name that the transform left alone, and for a
/// frame without a backtick, the frame comes back as it is.
pub fn rebuild_frame(frame: &[u8], keep_offset: bool, transformed: Option<Vec<u8>>) -> (r: Vec<u8>)
    ensures
        r@ == transformed_frame(
            frame@,
            keep_offset,
            match transformed {
                Some(name) => Some(name@),
                None => None,
            },
        ),
{
    let n = frame.len();
    let q = find_first(frame, BACKTICK);
    if q >= n {
        return slice_to_vec(frame);
    }
    match transformed {
        None => slice_to_vec(frame),
        Some(name) => {
            let start = q + 1;
            let resume = resume_at(frame, start, keep_offset);
            let mut out: Vec<u8> = slice_to_vec(slice_subrange(frame, 0, start));
            out.extend_from_slice(name.as_slice());
            out.extend_from_slice(slice_subrange(frame, resume, n));
            assert(out@ =~= with_function(frame@, keep_offset, name@));
            out
        },
    }
}

/// A copy of `s` with `:` in the place of every `;`.
pub fn replace_semicolons(s: &[u8]) -> (r: Vec<u8>)
    ensures
        r@ == colons(s@),
{
    let n = s.len();
    let mut out: Vec<u8> = Vec::with_capacity(n);
    let mut k: usize = 0;
    while k < n
        invariant
            k <= n,
            n == s@.len(),
            out@.len() == k,
            forall|i: int| 0 <= i < k ==> out@[i] == colons(s@)[i],
        decreases n - k,
    {
        let b = s[k];
        out.push(
            if b == SEMICOLON {
                COLON
            } else {
                b
            },
        );
        k += 1;
    }
    assert(out@ =~= colons(s@));
    out
}

/// The frame that one link of a chain of inlined calls becomes.
pub fn make_inline_frame(piece: &[u8], escape: bool, inlined: bool) -> (r: Vec<u8>)
    ensures
        r@ == inline_frame(piece@, escape, inlined),
{
    let n = piece.len();
    let mut k: usize = 0;
    assert(piece@.skip(0) =~= piece@);
    while k < n && piece[k] == LETTER_L
        invariant
            k <= n,
            n == piece@.len(),
            without_l(piece@) == without_l(piece@.skip(k as int)),
        decreases n - k,
    {
        proof {
            let t = piece@.skip(k as int);
            assert(t[0] == piece@[k as int]);
            assert(t.skip(1) =~= piece@.skip(k + 1));
        }
        k += 1;
    }
    proof {
        if k < n {
            assert(piece@.skip(k as int)[0] == piece@[k as int]);
        }
    }
    let name = slice_subrange(piece, k, n);
    assert(name@ =~= piece@.skip(k as int));
    let mut out = if escape {
        replace_semicolons(name)
    } else {
        slice_to_vec(name)
    };
    if inlined {
        let ghost before = out@;
        out.push(0x5f);
        out.push(0x5b);
        out.push(0x69);
        out.push(0x5d);
        assert(out@ =~= before + inline_tag());
    }
    out
}

/// Takes a chain of inlined calls apart. The frames come in the order in
/// which the chain names them.
pub fn expand_inlines(frame: &[u8], escape: bool) -> (out: Vec<Vec<u8>>)
    ensures
        views(out@) == inline_frames(frame@, escape),
        out@.len() >= 1,
{
    let n = frame.len();
    let mut out: Vec<Vec<u8>> = Vec::new();
    let mut pos: usize = 0;
    let mut inlined = false;
    assert(frame@.skip(0) =~= frame@);
    assert(views(out@) =~= Seq::<Seq<u8>>::empty());
    loop
        invariant_except_break
            pos <= n,
            n == frame@.len(),
            inline_frames(frame@, escape) == views(out@) + inline_frames_from(
                frame@.skip(pos as int),
                escape,
                inlined,
            ),
        ensures
            views(out@) == inline_frames(frame@, escape),
            out@.len() >= 1,
        decreases n - pos,
    {
        let rest = slice_subrange(frame, pos, n);
        assert(rest@ =~= frame@.skip(pos as int));
        let i = find_pair(rest, MINUS, GREATER);
        let ghost before = out@;
        if i >= rest.len() {
            let f = make_inline_frame(rest, escape, inlined);
            out.push(f);
            assert(views(out@) =~= views(before) + seq![f@]);
            break ;
        }
        let piece = slice_subrange(rest, 0, i);
        let f = make_inline_frame(piece, escape, inlined);
        out.push(f);
        proof {
            assert(views(out@) =~= views(before) + seq![f@]);
            assert(rest@.skip(i + 2) =~= frame@.skip(pos + i + 2));
            assert(piece@ =~= rest@.take(i as int));
            let tail = inline_frames_from(rest@.skip(i + 2), escape, true);
            assert(views(before) + (seq![f@] + tail) =~= (views(before) + seq![f@]) + tail);
        }
        pos = pos + i + 2;
        inlined = true;
    }
    out
}

} // verus!
