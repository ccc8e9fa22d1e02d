//! Cutting a trace into chunks of whole samples, for workers to fold each
//! on its own. The lines that close a sample are found without decoding.

use vstd::prelude::*;
use vstd::slice::slice_subrange;
use vstd::utf8::*;
use crate::text::{
    all_digits, is_ascii_space, lemma_line_len, lemma_trimmed_end_run, lemma_trimmed_start_run,
    lemma_utf8_plain, line_end, line_len, trimmed, trimmed_start,
};

verus! {

/// The bytes that are white space when each byte is read as one character of
/// Latin-1: tab to carriage return, space, next-line and no-break space.
pub open spec fn is_space_byte(b: u8) -> bool {
    (0x09 <= b && b <= 0x0d) || b == 0x20 || b == 0x85 || b == 0xa0
}

/// An ASCII decimal digit.
pub open spec fn is_digit_byte(b: u8) -> bool {
    0x30 <= b && b <= 0x39
}

/// `line` is white space up to `i`, digits from `i` up to `j`, one at
/// least, and white space from `j` on.
pub open spec fn splits_at(line: Seq<u8>, i: int, j: int) -> bool {
    &&& 0 <= i < j <= line.len()
    &&& forall|k: int| 0 <= k < i ==> is_space_byte(#[trigger] line[k])
    &&& forall|k: int| i <= k < j ==> is_digit_byte(#[trigger] line[k])
    &&& forall|k: int| j <= k < line.len() ==> is_space_byte(#[trigger] line[k])
}

/// A line closes a sample when it is decimal digits, one or more, and
/// nothing else but white space before and behind them.
pub open spec fn closes_sample(line: Seq<u8>) -> bool {
    exists|i: int, j: int| splits_at(line, i, j)
}

/// Tells whether `line` closes a sample. One pass over the bytes, nothing
/// decoded and nothing allocated.
pub fn is_end_of_stack(line: &[u8]) -> (end: bool)
    ensures
        end == closes_sample(line@),
{
    let n = line.len();
    let mut k: usize = 0;
    while k < n && is_space(line[k])
        invariant
            k <= n,
            n == line@.len(),
            forall|m: int| 0 <= m < k ==> is_space_byte(#[trigger] line@[m]),
        decreases n - k,
    {
        k += 1;
    }
    let i = k;
    while k < n && is_digit(line[k])
        invariant
            i <= k <= n,
            n == line@.len(),
            forall|m: int| i <= m < k ==> is_digit_byte(#[trigger] line@[m]),
        decreases n - k,
    {
        k += 1;
    }
    let j = k;
    while k < n && is_space(line[k])
        invariant
            j <= k <= n,
            n == line@.len(),
            forall|m: int| j <= m < k ==> is_space_byte(#[trigger] line@[m]),
        decreases n - k,
    {
        k += 1;
    }
    proof {
        if k == n && i < j {
            assert(splits_at(line@, i as int, j as int));
        } else {
            assert forall|a: int, b: int| !splits_at(line@, a, b) by {
                if splits_at(line@, a, b) {
                    // The three runs found are the longest ones, so any
                    // split has to agree with them.
                    assert(is_digit_byte(line@[a]));
                    if a < i {
                        assert(is_space_byte(line@[a]));
                    } else if a > i {
                        assert(is_space_byte(line@[i as int]));
                    } else if b < j {
                        assert(is_space_byte(line@[b]));
                        assert(is_digit_byte(line@[b]));
                    } else if b > j {
                        assert(is_digit_byte(line@[j as int]));
                    } else {
                        assert(k < n);
                        assert(is_space_byte(line@[k as int]));
                    }
                }
            }
        }
    }
    k == n && i < j
}

/// White space, as `is_space_byte` says it.
pub fn is_space(b: u8) -> (r: bool)
    ensures
        r == is_space_byte(b),
{
    (0x09 <= b && b <= 0x0d) || b == 0x20 || b == 0x85 || b == 0xa0
}

/// A decimal digit, as `is_digit_byte` says it.
pub fn is_digit(b: u8) -> (r: bool)
    ensures
        r == is_digit_byte(b),
{
    0x30 <= b && b <= 0x39
}

/// In a text that is UTF-8 a line that closes a sample is a count: without
/// the white space around it, it is digits, one or more, and nothing else.
pub proof fn lemma_closing_line_is_digits(line: Seq<u8>)
    requires
        valid_utf8(line),
        closes_sample(line),
    ensures
        trimmed(line).len() > 0,
        all_digits(trimmed(line), false),
{
    let (i, j) = choose|i: int, j: int| splits_at(line, i, j);
    assert forall|k: int| 0 <= k < line.len() implies (#[trigger] line[k]) < 0x80
        || is_continuation_byte(line[k]) by {
        if i <= k < j {
            assert(is_digit_byte(line[k]));
        } else {
            assert(is_space_byte(line[k]));
        }
    }
    lemma_utf8_plain(line);
    assert forall|k: int| 0 <= k < i implies is_ascii_space(#[trigger] line[k]) by {
        assert(is_space_byte(line[k]));
        assert(line[k] < 0x80);
    }
    assert(is_digit_byte(line[i]));
    lemma_trimmed_start_run(line, i);
    let rest = line.skip(i);
    assert(trimmed_start(line) == rest);
    assert forall|k: int| j - i <= k < rest.len() implies is_ascii_space(#[trigger] rest[k]) by {
        assert(rest[k] == line[k + i]);
        assert(is_space_byte(line[k + i]));
        assert(line[k + i] < 0x80);
    }
    assert(rest[j - i - 1] == line[j - 1]);
    assert(is_digit_byte(line[j - 1]));
    lemma_trimmed_end_run(rest, j - i);
    let digits = rest.take(j - i);
    assert(trimmed(line) == digits);
    assert forall|k: int| 0 <= k < digits.len() implies crate::text::is_numeral_digit(
        #[trigger] digits[k],
        false,
    ) by {
        assert(digits[k] == line[k + i]);
        assert(is_digit_byte(line[k + i]));
    }
}

/// The length of the first chunk of `s`: it ends behind the line that
/// closes the last of `need` samples, or with `s`. A chunk holds whole lines.
pub open spec fn chunk_len(s: Seq<u8>, need: nat) -> int
    decreases s.len(),
{
    if s.len() == 0 {
        0
    } else {
        proof {
            lemma_line_len(s);
        }
        let l = line_len(s);
        if closes_sample(s.take(l)) && need <= 1 {
            l
        } else if closes_sample(s.take(l)) {
            l + chunk_len(s.skip(l), (need - 1) as nat)
        } else {
            l + chunk_len(s.skip(l), need)
        }
    }
}

/// A chunk of a text that is not empty is not empty, and no longer than the
/// text.
pub proof fn lemma_chunk_len(s: Seq<u8>, need: nat)
    ensures
        0 <= chunk_len(s, need) <= s.len(),
        s.len() > 0 ==> chunk_len(s, need) >= 1,
    decreases s.len(),
{
    if s.len() > 0 {
        lemma_line_len(s);
        let l = line_len(s);
        if closes_sample(s.take(l)) && need <= 1 {
        } else if closes_sample(s.take(l)) {
            lemma_chunk_len(s.skip(l), (need - 1) as nat);
        } else {
            lemma_chunk_len(s.skip(l), need);
        }
    }
}

/// A chunker cuts where `chunk_len` says.
///
/// Let a chunker hold `held`, which closes `closed` samples, and let `rest`
/// be the text that is still to come. The chunk that the chunker will hand
/// out is `held` and the first chunk of `rest`, for the samples that are
/// still needed. When the chunker takes the first line of `rest`, either it
/// hands out that very chunk, or the chunk it will hand out is still the
/// same.
pub proof fn lemma_chunker_follows(held: Seq<u8>, closed: nat, per_chunk: nat, rest: Seq<u8>)
    requires
        closed < per_chunk,
        rest.len() > 0,
    ensures
        ({
            let l = line_len(rest);
            let line = rest.take(l);
            let need = (per_chunk - closed) as nat;
            let awaited = held + rest.take(chunk_len(rest, need));
            if closes_sample(line) && closed + 1 == per_chunk {
                held + line == awaited
            } else {
                let left = (if closes_sample(line) {
                    need - 1
                } else {
                    need as int
                }) as nat;
                (held + line) + rest.skip(l).take(chunk_len(rest.skip(l), left)) == awaited
            }
        }),
{
    let l = line_len(rest);
    let line = rest.take(l);
    let need = (per_chunk - closed) as nat;
    lemma_line_len(rest);
    if !(closes_sample(line) && closed + 1 == per_chunk) {
        let left = (if closes_sample(line) {
            need - 1
        } else {
            need as int
        }) as nat;
        let tail = rest.skip(l);
        lemma_chunk_len(tail, left);
        let c = chunk_len(tail, left);
        assert(chunk_len(rest, need) == l + c);
        assert((held + line) + tail.take(c) =~= held + rest.take(l + c));
    }
}

/// Where the chunk that starts at `pos` ends, `per_chunk` samples making a
/// chunk.
pub fn chunk_end(input: &[u8], pos: usize, per_chunk: usize) -> (end: usize)
    requires
        pos <= input@.len(),
        per_chunk >= 1,
    ensures
        end == pos + chunk_len(input@.skip(pos as int), per_chunk as nat),
        pos <= end <= input@.len(),
        pos < input@.len() ==> pos < end,
{
    let n = input.len();
    let mut k: usize = pos;
    let mut need: usize = per_chunk;
    proof {
        lemma_chunk_len(input@.skip(pos as int), per_chunk as nat);
    }
    while k < n
        invariant
            pos <= k <= n,
            n == input@.len(),
            need >= 1,
            pos + chunk_len(input@.skip(pos as int), per_chunk as nat) == k + chunk_len(
                input@.skip(k as int),
                need as nat,
            ),
        decreases n - k,
    {
        let e = line_end(input, k);
        let line = slice_subrange(input, k, e);
        proof {
            let rest = input@.skip(k as int);
            lemma_line_len(rest);
            assert(line@ =~= rest.take(line_len(rest)));
            assert(rest.skip(line_len(rest)) =~= input@.skip(e as int));
        }
        if is_end_of_stack(line) {
            if need == 1 {
                return e;
            }
            need -= 1;
        }
        k = e;
    }
    k
}

/// Gathers the lines of a trace into chunks, for a caller that reads the
/// trace line by line.
pub struct Chunker {
    buf: Vec<u8>,
    seen: usize,
    per_chunk: usize,
}

impl Chunker {
    /// The lines gathered for the chunk that is being made.
    pub closed spec fn held(&self) -> Seq<u8> {
        self.buf@
    }

    /// The number of samples that the lines gathered close.
    pub closed spec fn closed(&self) -> nat {
        self.seen as nat
    }

    /// The number of samples that make a chunk.
    pub closed spec fn per_chunk(&self) -> nat {
        self.per_chunk as nat
    }

    /// A chunk is cut as soon as it is full.
    pub closed spec fn wf(&self) -> bool {
        self.seen < self.per_chunk
    }

    /// A chunker that has gathered nothing.
    pub fn new(per_chunk: usize) -> (r: Self)
        requires
            per_chunk >= 1,
        ensures
            r.wf(),
            r.held() == Seq::<u8>::empty(),
            r.closed() == 0,
            r.per_chunk() == per_chunk,
    {
        Chunker { buf: Vec::new(), seen: 0, per_chunk }
    }

    /// Takes the next line of the trace. When the line closes the last
    /// sample of a chunk, the chunk comes back and the next one is begun.
    pub fn push_line(&mut self, line: &[u8]) -> (r: Option<Vec<u8>>)
        requires
            old(self).wf(),
        ensures
            final(self).wf(),
            final(self).per_chunk() == old(self).per_chunk(),
            closes_sample(line@) && old(self).closed() + 1 == old(self).per_chunk() ==> r is Some
                && r.unwrap()@ == old(self).held() + line@ && final(self).held() == Seq::<
                u8,
            >::empty() && final(self).closed() == 0,
            !(closes_sample(line@) && old(self).closed() + 1 == old(self).per_chunk()) ==> r is None
                && final(self).held() == old(self).held() + line@ && final(self).closed() == old(
                self,
            ).closed() + (if closes_sample(line@) {
                1nat
            } else {
                0nat
            }),
    {
        self.buf.extend_from_slice(line);
        assert(self.buf@ =~= old(self).buf@ + line@);
        if is_end_of_stack(line) {
            if self.seen + 1 == self.per_chunk {
                let mut chunk: Vec<u8> = Vec::new();
                std::mem::swap(&mut chunk, &mut self.buf);
                self.seen = 0;
                return Some(chunk);
            }
            self.seen += 1;
        }
        None
    }

    /// Hands out what is left when the trace has ended: the last chunk,
    /// which may be empty.
    pub fn finish(&mut self) -> (r: Vec<u8>)
        requires
            old(self).wf(),
        ensures
            final(self).wf(),
            final(self).per_chunk() == old(self).per_chunk(),
            r@ == old(self).held(),
            final(self).held() == Seq::<u8>::empty(),
            final(self).closed() == 0,
    {
        let mut chunk: Vec<u8> = Vec::new();
        std::mem::swap(&mut chunk, &mut self.buf);
        self.seen = 0;
        chunk
    }
}

} // verus!
