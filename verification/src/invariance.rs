//! Folding does not depend on the size of the chunks nor on the number of
//! workers: what comes out is the same. This file states that and proves it,
//! for every text whose lines are the samples of a trace.

use vstd::prelude::*;
use vstd::utf8::*;
use crate::chunk::{chunk_len, closes_sample, lemma_chunk_len, lemma_closing_line_is_digits};
use crate::folder::{
    after_chunks, after_line, after_lines, after_text, body_outcome, collapsed, folded,
    fresh_state, preamble, result_of, FoldState, Options, Preamble,
};
use crate::occurrences::{
    count_in, distinct_stacks, lemma_add_into_list_merge, lemma_list_add, lemma_list_merge,
    lemma_position, lemma_table_of, list_merge, position, table_add, table_merge, table_of,
    wrapped_sum,
};
use crate::text::{all_digits, lemma_line_len, line_len, lines, parsed_unsigned, trimmed};

verus! {

/// Wrapped sums do not depend on the order of their parts, nor on how the
/// parts are grouped.
pub proof fn lemma_wrapped_sum(a: usize, b: usize, c: usize)
    ensures
        wrapped_sum(a, b) == wrapped_sum(b, a),
        wrapped_sum(wrapped_sum(a, b), c) == wrapped_sum(a, wrapped_sum(b, c)),
        wrapped_sum(a, 0) == a,
{
}

/// Merging two tables gives the same table in either order.
pub proof fn lemma_merge_commutes(a: Map<Seq<u8>, usize>, b: Map<Seq<u8>, usize>)
    ensures
        table_merge(a, b) == table_merge(b, a),
{
    assert forall|k: Seq<u8>| #[trigger]
        wrapped_sum(count_in(a, k), count_in(b, k)) == wrapped_sum(
            count_in(b, k),
            count_in(a, k),
        ) by {
        lemma_wrapped_sum(count_in(a, k), count_in(b, k), 0);
    }
    assert(table_merge(a, b) =~= table_merge(b, a));
}

/// Merging three tables gives the same table however they are grouped.
pub proof fn lemma_merge_associates(
    a: Map<Seq<u8>, usize>,
    b: Map<Seq<u8>, usize>,
    c: Map<Seq<u8>, usize>,
)
    ensures
        table_merge(table_merge(a, b), c) == table_merge(a, table_merge(b, c)),
{
    let left = table_merge(table_merge(a, b), c);
    let right = table_merge(a, table_merge(b, c));
    assert forall|k: Seq<u8>| #[trigger]
        left.contains_key(k) == right.contains_key(k) && (left.contains_key(k) ==> left[k]
            == right[k]) by {
        lemma_wrapped_sum(count_in(a, k), count_in(b, k), count_in(c, k));
        lemma_wrapped_sum(count_in(a, k), 0, 0);
        lemma_wrapped_sum(count_in(c, k), 0, 0);
        lemma_wrapped_sum(0, count_in(c, k), 0);
    }
    assert(left =~= right);
}

/// Merging with the empty table changes nothing.
pub proof fn lemma_merge_empty(a: Map<Seq<u8>, usize>)
    ensures
        table_merge(a, Map::empty()) == a,
        table_merge(Map::empty(), a) == a,
{
    assert forall|k: Seq<u8>| #[trigger]
        wrapped_sum(count_in(a, k), 0) == count_in(a, k) && wrapped_sum(0, count_in(a, k))
            == count_in(a, k) by {
        lemma_wrapped_sum(count_in(a, k), 0, 0);
        lemma_wrapped_sum(0, count_in(a, k), 0);
    }
    assert(table_merge(a, Map::empty()) =~= a);
    assert(table_merge(Map::empty(), a) =~= a);
}

/// Counting a sample in the merged table is counting it in one of the two
/// and merging then.
pub proof fn lemma_add_into_merge(
    a: Map<Seq<u8>, usize>,
    b: Map<Seq<u8>, usize>,
    stack: Seq<u8>,
    count: usize,
)
    ensures
        table_add(table_merge(a, b), stack, count) == table_merge(a, table_add(b, stack, count)),
{
    let left = table_add(table_merge(a, b), stack, count);
    let right = table_merge(a, table_add(b, stack, count));
    assert forall|k: Seq<u8>| #[trigger]
        left.contains_key(k) == right.contains_key(k) && (left.contains_key(k) ==> left[k]
            == right[k]) by {
        lemma_wrapped_sum(count_in(a, k), count_in(b, k), count);
        lemma_wrapped_sum(count_in(a, k), 0, count);
        lemma_wrapped_sum(0, count, 0);
    }
    assert(left =~= right);
}

/// The state with these frames and this table.
pub open spec fn state_with(stack: Seq<Seq<u8>>, list: Seq<(Seq<u8>, usize)>) -> FoldState {
    FoldState { stack, list }
}

/// The first line of a text is the first line of any part of the text that
/// holds it.
pub proof fn lemma_line_len_take(s: Seq<u8>, c: int)
    requires
        line_len(s) <= c <= s.len(),
    ensures
        line_len(s.take(c)) == line_len(s),
    decreases s.len(),
{
    lemma_line_len(s);
    if s.len() > 0 {
        assert(s.take(c)[0] == s[0]);
        if s[0] != 0x0a {
            lemma_line_len_take(s.skip(1), c - 1);
            assert(s.take(c).skip(1) =~= s.skip(1).take(c - 1));
        }
    } else {
        assert(s.take(c) =~= s);
    }
}

/// A chunk holds whole lines: the lines of a text are the lines of its first
/// chunk and then the lines of the rest. Unless the chunk is all of the
/// text, its last line closes a sample.
pub proof fn lemma_chunk_lines(s: Seq<u8>, need: nat)
    ensures
        lines(s) == lines(s.take(chunk_len(s, need))) + lines(s.skip(chunk_len(s, need))),
        chunk_len(s, need) < s.len() ==> lines(s.take(chunk_len(s, need))).len() >= 1
            && closes_sample(lines(s.take(chunk_len(s, need))).last()),
    decreases s.len(),
{
    let c = chunk_len(s, need);
    lemma_chunk_len(s, need);
    if s.len() == 0 {
        assert(s.take(c) =~= s);
        assert(s.skip(c) =~= s);
    } else {
        lemma_line_len(s);
        let l = line_len(s);
        let first = s.take(l);
        let head = s.take(c);
        lemma_chunk_len(s.skip(l), need);
        lemma_chunk_len(s.skip(l), (need - 1) as nat);
        assert(l <= c);
        lemma_line_len_take(s, c);
        assert(head.take(l) =~= first);
        assert(lines(head) == seq![first] + lines(head.skip(l)));
        if closes_sample(first) && need <= 1 {
            assert(head.skip(l) =~= Seq::<u8>::empty());
            assert(lines(head) =~= seq![first]);
        } else {
            let next: nat = if closes_sample(first) {
                (need - 1) as nat
            } else {
                need
            };
            let t = s.skip(l);
            let ct = chunk_len(t, next);
            lemma_chunk_lines(t, next);
            lemma_chunk_len(t, next);
            assert(c == l + ct);
            assert(head.skip(l) =~= t.take(ct));
            assert(s.skip(c) =~= t.skip(ct));
            assert(seq![first] + (lines(t.take(ct)) + lines(t.skip(ct))) =~= (seq![first] + lines(
                t.take(ct),
            )) + lines(t.skip(ct)));
            if c < s.len() {
                assert(lines(head).last() == lines(t.take(ct)).last());
            }
        }
    }
}

/// Folding two runs of lines is folding the first and going on with the
/// second, unless the first stopped the folder.
pub proof fn lemma_fold_continues(st: FoldState, x: Seq<Seq<u8>>, y: Seq<Seq<u8>>, opt: Options)
    ensures
        after_lines(st, x + y, opt) == (if after_lines(st, x, opt).invalid {
            after_lines(st, x, opt)
        } else {
            after_lines(after_lines(st, x, opt).state, y, opt)
        }),
    decreases x.len(),
{
    if x.len() == 0 {
        assert(x + y =~= y);
    } else {
        assert((x + y)[0] == x[0]);
        assert((x + y).skip(1) =~= x.skip(1) + y);
        if valid_utf8(x[0]) {
            lemma_fold_continues(after_line(st, x[0], opt), x.skip(1), y, opt);
        }
    }
}

/// The number of workers has no part in how lines are folded.
pub proof fn lemma_workers_irrelevant(st: FoldState, ls: Seq<Seq<u8>>, a: Options, b: Options)
    requires
        a.demangle == b.demangle,
        a.includeoffset == b.includeoffset,
    ensures
        after_lines(st, ls, a) == after_lines(st, ls, b),
    decreases ls.len(),
{
    if ls.len() > 0 && valid_utf8(ls[0]) {
        assert(after_line(st, ls[0], a) == after_line(st, ls[0], b));
        lemma_workers_irrelevant(after_line(st, ls[0], a), ls.skip(1), a, b);
    }
}

/// A folder never writes a stack down twice.
pub proof fn lemma_fold_distinct(st: FoldState, ls: Seq<Seq<u8>>, opt: Options)
    requires
        distinct_stacks(st.list),
    ensures
        distinct_stacks(after_lines(st, ls, opt).state.list),
    decreases ls.len(),
{
    if ls.len() > 0 && valid_utf8(ls[0]) {
        let text = trimmed(ls[0]);
        if text.len() > 0 && parsed_unsigned(text, false) is Some {
            lemma_list_add(
                st.list,
                folded(st.stack, opt.includeoffset),
                parsed_unsigned(text, false).unwrap(),
            );
        }
        lemma_fold_distinct(after_line(st, ls[0], opt), ls.skip(1), opt);
    }
}

/// What a folder had counted before has no part in what it does with the
/// lines: the frames it ends with and where it stops are the same, and what
/// it has counted in the end is what it had counted, merged with what a
/// folder counts that had counted nothing. Stated for a folder whose table
/// `l1` is the merge of `l` and `m`, against one whose table is `m`.
pub proof fn lemma_fold_relates(
    stack: Seq<Seq<u8>>,
    l1: Seq<(Seq<u8>, usize)>,
    l: Seq<(Seq<u8>, usize)>,
    m: Seq<(Seq<u8>, usize)>,
    ls: Seq<Seq<u8>>,
    opt: Options,
)
    requires
        table_of(l1) == table_merge(table_of(l), table_of(m)),
    ensures
        after_lines(state_with(stack, l1), ls, opt).invalid == after_lines(
            state_with(stack, m),
            ls,
            opt,
        ).invalid,
        after_lines(state_with(stack, l1), ls, opt).state.stack == after_lines(
            state_with(stack, m),
            ls,
            opt,
        ).state.stack,
        table_of(after_lines(state_with(stack, l1), ls, opt).state.list) == table_merge(
            table_of(l),
            table_of(after_lines(state_with(stack, m), ls, opt).state.list),
        ),
    decreases ls.len(),
{
    if ls.len() > 0 && valid_utf8(ls[0]) {
        let sa = after_line(state_with(stack, l1), ls[0], opt);
        let sb = after_line(state_with(stack, m), ls[0], opt);
        let text = trimmed(ls[0]);
        if text.len() > 0 && parsed_unsigned(text, false) is Some {
            let count = parsed_unsigned(text, false).unwrap();
            let key = folded(stack, opt.includeoffset);
            lemma_list_add(l1, key, count);
            lemma_list_add(m, key, count);
            lemma_add_into_merge(table_of(l), table_of(m), key, count);
        }
        assert(sa.stack == sb.stack);
        assert(sa == state_with(sa.stack, sa.list));
        assert(sb == state_with(sa.stack, sb.list));
        lemma_fold_relates(sa.stack, sa.list, l, sb.list, ls.skip(1), opt);
    }
}

/// The table that a folder ends with is what it had counted, merged with
/// what the lines add.
pub proof fn lemma_fold_merges(
    stack: Seq<Seq<u8>>,
    l: Seq<(Seq<u8>, usize)>,
    ls: Seq<Seq<u8>>,
    opt: Options,
)
    ensures
        after_lines(state_with(stack, l), ls, opt).invalid == after_lines(
            state_with(stack, Seq::empty()),
            ls,
            opt,
        ).invalid,
        after_lines(state_with(stack, l), ls, opt).state.stack == after_lines(
            state_with(stack, Seq::empty()),
            ls,
            opt,
        ).state.stack,
        table_of(after_lines(state_with(stack, l), ls, opt).state.list) == table_merge(
            table_of(l),
            table_of(after_lines(state_with(stack, Seq::empty()), ls, opt).state.list),
        ),
{
    lemma_merge_empty(table_of(l));
    lemma_fold_relates(stack, l, l, Seq::empty(), ls, opt);
}

/// A line of nothing but white space.
pub open spec fn is_blank_line(line: Seq<u8>) -> bool {
    trimmed(line).len() == 0
}

/// A line of digits alone, the white space around them aside.
pub open spec fn is_digits_line(line: Seq<u8>) -> bool {
    trimmed(line).len() > 0 && all_digits(trimmed(line), false)
}

/// A line that holds a count: digits alone that write a number which a
/// `usize` holds.
pub open spec fn is_count_line(line: Seq<u8>) -> bool {
    trimmed(line).len() > 0 && parsed_unsigned(trimmed(line), false) is Some
}

/// The lines `ls` are the samples of a trace: every line is UTF-8, every
/// line of digits alone is a count that a `usize` holds, and the lines do not
/// end inside a sample, behind a frame line that no count follows. Blank
/// lines may stand anywhere. `open` says whether the lines start inside a
/// sample, behind a frame line.
pub open spec fn well_formed(ls: Seq<Seq<u8>>, open: bool) -> bool
    decreases ls.len(),
{
    if ls.len() == 0 {
        !open
    } else {
        &&& valid_utf8(ls[0])
        &&& if is_blank_line(ls[0]) {
            well_formed(ls.skip(1), open)
        } else if is_digits_line(ls[0]) {
            is_count_line(ls[0]) && well_formed(ls.skip(1), false)
        } else {
            well_formed(ls.skip(1), true)
        }
    }
}

/// The samples of a trace can be folded: the folder reads every line and
/// has no frames left in the end.
pub proof fn lemma_well_formed_folds(st: FoldState, ls: Seq<Seq<u8>>, open: bool, opt: Options)
    requires
        well_formed(ls, open),
        open <==> st.stack.len() > 0,
    ensures
        !after_lines(st, ls, opt).invalid,
        after_lines(st, ls, opt).state.stack.len() == 0,
    decreases ls.len(),
{
    if ls.len() > 0 {
        let next = after_line(st, ls[0], opt);
        let next_open = if is_blank_line(ls[0]) {
            open
        } else {
            !is_digits_line(ls[0])
        };
        lemma_well_formed_folds(next, ls.skip(1), next_open, opt);
    }
}

/// The samples of a trace that are cut behind a line that closes a sample
/// are samples of a trace before the cut and behind it.
pub proof fn lemma_well_formed_split(x: Seq<Seq<u8>>, y: Seq<Seq<u8>>, open: bool)
    requires
        well_formed(x + y, open),
        x.len() > 0,
        closes_sample(x.last()),
    ensures
        well_formed(x, open),
        well_formed(y, false),
    decreases x.len(),
{
    assert((x + y)[0] == x[0]);
    assert((x + y).skip(1) =~= x.skip(1) + y);
    if x.len() == 1 {
        assert(x.skip(1) + y =~= y);
        assert(x.last() == x[0]);
        lemma_closing_line_is_digits(x[0]);
        assert(x.skip(1).len() == 0);
        assert(well_formed(x.skip(1), false));
        assert(is_digits_line(x[0]) && !is_blank_line(x[0]));
    } else {
        let next_open = if is_blank_line(x[0]) {
            open
        } else {
            !is_digits_line(x[0])
        };
        assert(x.skip(1).last() == x.last());
        assert(well_formed(x.skip(1) + y, next_open));
        lemma_well_formed_split(x.skip(1), y, next_open);
        assert(well_formed(x.skip(1), next_open));
    }
}

/// The lines of a text of samples are samples in the first chunk and samples
/// in the rest.
pub proof fn lemma_well_formed_chunk(s: Seq<u8>, per_chunk: nat)
    requires
        well_formed(lines(s), false),
    ensures
        lines(s) == lines(s.take(chunk_len(s, per_chunk))) + lines(
            s.skip(chunk_len(s, per_chunk)),
        ),
        well_formed(lines(s.take(chunk_len(s, per_chunk))), false),
        well_formed(lines(s.skip(chunk_len(s, per_chunk))), false),
{
    let c = chunk_len(s, per_chunk);
    lemma_chunk_len(s, per_chunk);
    lemma_chunk_lines(s, per_chunk);
    let x = lines(s.take(c));
    let y = lines(s.skip(c));
    if c == s.len() {
        assert(s.skip(c) =~= Seq::<u8>::empty());
        assert(y =~= Seq::<Seq<u8>>::empty());
        assert(x + y =~= x);
    } else {
        lemma_well_formed_split(x, y, false);
    }
}

/// Folding in chunks.
///
/// For the samples of a trace, whatever the number of samples in a chunk:
/// every chunk can be folded from a fresh state, and the tables of the
/// chunks, merged into what was counted before, make the table that comes of
/// what was counted before and of folding the whole text in one piece.
pub proof fn lemma_chunks_fold(
    list: Seq<(Seq<u8>, usize)>,
    s: Seq<u8>,
    per_chunk: nat,
    opt: Options,
)
    requires
        well_formed(lines(s), false),
    ensures
        after_chunks(list, s, per_chunk, opt).error is None,
        table_of(after_chunks(list, s, per_chunk, opt).list) == table_merge(
            table_of(list),
            table_of(after_text(fresh_state(), s, opt).state.list),
        ),
    decreases s.len(),
{
    if s.len() == 0 {
        lemma_merge_empty(table_of(list));
        assert(lines(s) =~= Seq::<Seq<u8>>::empty());
    } else {
        lemma_chunk_len(s, per_chunk);
        lemma_well_formed_chunk(s, per_chunk);
        let c = chunk_len(s, per_chunk);
        let x = lines(s.take(c));
        let y = lines(s.skip(c));
        let none = Seq::<Seq<u8>>::empty();
        assert(fresh_state() == state_with(none, Seq::empty()));
        lemma_well_formed_folds(fresh_state(), x, false, opt);
        lemma_fold_continues(fresh_state(), x, y, opt);
        let first = after_lines(fresh_state(), x, opt);
        assert(first.state.stack =~= none);
        assert(result_of(first) is Ok);
        let m1 = first.state.list;
        assert(first.state == state_with(none, m1));
        lemma_fold_merges(none, m1, y, opt);
        lemma_chunks_fold(list_merge(list, m1), s.skip(c), per_chunk, opt);
        lemma_fold_distinct(fresh_state(), x, opt);
        lemma_list_merge(list, m1);
        lemma_merge_associates(
            table_of(list),
            table_of(m1),
            table_of(after_lines(fresh_state(), y, opt).state.list),
        );
    }
}

/// Folding the samples of a trace succeeds, with one worker or more, and
/// counts what was counted before, merged with what the text adds.
pub proof fn lemma_outcome(
    list: Seq<(Seq<u8>, usize)>,
    body: Seq<u8>,
    per_chunk: nat,
    opt: Options,
)
    requires
        well_formed(lines(body), false),
    ensures
        body_outcome(state_with(Seq::empty(), list), body, per_chunk, opt).1 is Ok,
        body_outcome(state_with(Seq::empty(), list), body, per_chunk, opt).0.stack.len() == 0,
        table_of(body_outcome(state_with(Seq::empty(), list), body, per_chunk, opt).0.list)
            == table_merge(
            table_of(list),
            table_of(after_text(fresh_state(), body, opt).state.list),
        ),
{
    let none = Seq::<Seq<u8>>::empty();
    assert(fresh_state() == state_with(none, Seq::empty()));
    lemma_chunks_fold(list, body, per_chunk, opt);
    lemma_fold_merges(none, list, lines(body), opt);
    lemma_well_formed_folds(state_with(none, list), lines(body), false, opt);
}

/// The size of the chunks and the number of workers do not show in the
/// table.
///
/// For the samples of a trace and a folder between two samples, folding
/// succeeds and counts the same, whether one worker reads the text line by
/// line or several fold it in chunks, and whatever the number of samples in
/// a chunk.
pub proof fn lemma_thread_count_invariance(
    list: Seq<(Seq<u8>, usize)>,
    body: Seq<u8>,
    per_chunk_a: nat,
    a: Options,
    per_chunk_b: nat,
    b: Options,
)
    requires
        a.demangle == b.demangle,
        a.includeoffset == b.includeoffset,
        well_formed(lines(body), false),
    ensures
        body_outcome(state_with(Seq::empty(), list), body, per_chunk_a, a).1 is Ok,
        body_outcome(state_with(Seq::empty(), list), body, per_chunk_b, b).1 is Ok,
        table_of(body_outcome(state_with(Seq::empty(), list), body, per_chunk_a, a).0.list)
            == table_of(body_outcome(state_with(Seq::empty(), list), body, per_chunk_b, b).0.list),
{
    lemma_outcome(list, body, per_chunk_a, a);
    lemma_workers_irrelevant(fresh_state(), lines(body), a, b);
    lemma_outcome(list, body, per_chunk_b, b);
}

/// What a folder had counted before shows in its list as a merge: the list
/// it ends with is the list it had, with the list merged into it that a
/// folder ends with that had counted nothing. Stated for a folder whose list
/// `l1` is the merge of `l` and `m`, against one whose list is `m`.
pub proof fn lemma_fold_relates_lists(
    stack: Seq<Seq<u8>>,
    l1: Seq<(Seq<u8>, usize)>,
    l: Seq<(Seq<u8>, usize)>,
    m: Seq<(Seq<u8>, usize)>,
    ls: Seq<Seq<u8>>,
    opt: Options,
)
    requires
        l1 == list_merge(l, m),
    ensures
        after_lines(state_with(stack, l1), ls, opt).invalid == after_lines(
            state_with(stack, m),
            ls,
            opt,
        ).invalid,
        after_lines(state_with(stack, l1), ls, opt).state.stack == after_lines(
            state_with(stack, m),
            ls,
            opt,
        ).state.stack,
        after_lines(state_with(stack, l1), ls, opt).state.list == list_merge(
            l,
            after_lines(state_with(stack, m), ls, opt).state.list,
        ),
    decreases ls.len(),
{
    if ls.len() > 0 && valid_utf8(ls[0]) {
        let sa = after_line(state_with(stack, l1), ls[0], opt);
        let sb = after_line(state_with(stack, m), ls[0], opt);
        let text = trimmed(ls[0]);
        if text.len() > 0 && parsed_unsigned(text, false) is Some {
            lemma_add_into_list_merge(
                l,
                m,
                folded(stack, opt.includeoffset),
                parsed_unsigned(text, false).unwrap(),
            );
        }
        assert(sa == state_with(sa.stack, sa.list));
        assert(sb == state_with(sa.stack, sb.list));
        lemma_fold_relates_lists(sa.stack, sa.list, l, sb.list, ls.skip(1), opt);
    }
}

/// Folding in chunks, entry by entry.
///
/// For the samples of a trace, whatever the number of samples in a chunk,
/// the list that comes of folding the chunks one after the other is the list
/// that comes of folding the whole text in one piece: the same entries in
/// the same order.
pub proof fn lemma_chunks_fold_alike(
    list: Seq<(Seq<u8>, usize)>,
    s: Seq<u8>,
    per_chunk: nat,
    opt: Options,
)
    requires
        well_formed(lines(s), false),
    ensures
        after_chunks(list, s, per_chunk, opt).error is None,
        after_chunks(list, s, per_chunk, opt).list == after_text(
            state_with(Seq::empty(), list),
            s,
            opt,
        ).state.list,
    decreases s.len(),
{
    lemma_chunks_fold(list, s, per_chunk, opt);
    if s.len() == 0 {
        assert(lines(s) =~= Seq::<Seq<u8>>::empty());
    } else {
        lemma_chunk_len(s, per_chunk);
        lemma_well_formed_chunk(s, per_chunk);
        let c = chunk_len(s, per_chunk);
        let x = lines(s.take(c));
        let y = lines(s.skip(c));
        let none = Seq::<Seq<u8>>::empty();
        assert(fresh_state() == state_with(none, Seq::empty()));
        lemma_well_formed_folds(fresh_state(), x, false, opt);
        lemma_fold_continues(state_with(none, list), x, y, opt);
        let first = after_lines(fresh_state(), x, opt);
        assert(first.state.stack =~= none);
        let m1 = first.state.list;
        lemma_chunks_fold_alike(list_merge(list, m1), s.skip(c), per_chunk, opt);
        // The folder that reads the whole text stands, behind the chunk,
        // where the workers stand together.
        lemma_fold_relates_lists(none, list, list, Seq::empty(), x, opt);
        let whole = after_lines(state_with(none, list), x, opt);
        assert(whole.state == state_with(none, list_merge(list, m1)));
    }
}

/// Folding in chunks never writes a stack down twice.
pub proof fn lemma_chunks_distinct(
    list: Seq<(Seq<u8>, usize)>,
    s: Seq<u8>,
    per_chunk: nat,
    opt: Options,
)
    requires
        distinct_stacks(list),
    ensures
        distinct_stacks(after_chunks(list, s, per_chunk, opt).list),
    decreases s.len(),
{
    if s.len() > 0 {
        lemma_chunk_len(s, per_chunk);
        let c = chunk_len(s, per_chunk);
        let out = after_text(fresh_state(), s.take(c), opt);
        lemma_fold_distinct(fresh_state(), lines(s.take(c)), opt);
        lemma_list_merge(list, out.state.list);
        if result_of(out) is Ok {
            lemma_chunks_distinct(list_merge(list, out.state.list), s.skip(c), per_chunk, opt);
        }
    }
}

/// In a list without repeats an entry stands once if the table holds its
/// stack with its count, and not at all if it does not.
pub proof fn lemma_entry_once(list: Seq<(Seq<u8>, usize)>, entry: (Seq<u8>, usize))
    requires
        distinct_stacks(list),
    ensures
        list.to_multiset().count(entry) == (if table_of(list).contains_key(entry.0) && table_of(
            list,
        )[entry.0] == entry.1 {
            1nat
        } else {
            0nat
        }),
    decreases list.len(),
{
    broadcast use vstd::multiset::group_multiset_axioms;

    if list.len() == 0 {
        assert(list.to_multiset().len() == 0) by {
            list.to_multiset_ensures();
        }
    } else {
        let t = list.drop_last();
        let last = list.last();
        assert(list =~= t.push(last));
        vstd::seq_lib::to_multiset_build(t, last);
        assert forall|i: int, j: int| 0 <= i < j < t.len() implies (#[trigger] t[i]).0 != (
        #[trigger] t[j]).0 by {
            assert(list[i].0 != list[j].0);
        }
        lemma_entry_once(t, entry);
        lemma_table_of(t, last.0);
        lemma_position(t, last.0);
        if position(t, last.0) >= 0 {
            assert(list[position(t, last.0)].0 != list[list.len() - 1].0);
        }
    }
}

/// Two lists without repeats that write down the same table hold the same
/// entries, whatever their order.
pub proof fn lemma_same_table_same_entries(a: Seq<(Seq<u8>, usize)>, b: Seq<(Seq<u8>, usize)>)
    requires
        distinct_stacks(a),
        distinct_stacks(b),
        table_of(a) == table_of(b),
    ensures
        a.to_multiset() == b.to_multiset(),
{
    assert forall|e: (Seq<u8>, usize)| a.to_multiset().count(e) == b.to_multiset().count(e) by {
        lemma_entry_once(a, e);
        lemma_entry_once(b, e);
    }
    assert(a.to_multiset() =~= b.to_multiset());
}

/// The output does not depend on the number of workers, nor on the size of
/// the chunks.
///
/// Take a trace whose lines behind the preamble are samples, and two folders
/// that have seen nothing and treat names and offsets alike. Whatever their
/// numbers of workers and their sizes of chunks, both succeed or both find
/// the preamble not to be UTF-8, both are left as they were, and both write
/// the same entries: the same stacks with the same counts, in whatever
/// order.
pub proof fn lemma_collapse_invariance(
    input: Seq<u8>,
    per_chunk_a: nat,
    a: Options,
    per_chunk_b: nat,
    b: Options,
)
    requires
        a.demangle == b.demangle,
        a.includeoffset == b.includeoffset,
        preamble(input) matches Preamble::Ends(n) ==> well_formed(
            lines(input.skip(n as int)),
            false,
        ),
    ensures
        collapsed(fresh_state(), input, per_chunk_a, a).result == collapsed(
            fresh_state(),
            input,
            per_chunk_b,
            b,
        ).result,
        collapsed(fresh_state(), input, per_chunk_a, a).result is Ok || preamble(input)
            == Preamble::Invalid,
        collapsed(fresh_state(), input, per_chunk_a, a).state == fresh_state(),
        collapsed(fresh_state(), input, per_chunk_b, b).state == fresh_state(),
        collapsed(fresh_state(), input, per_chunk_a, a).counted.to_multiset() == collapsed(
            fresh_state(),
            input,
            per_chunk_b,
            b,
        ).counted.to_multiset(),
{
    match preamble(input) {
        Preamble::Ends(n) => {
            let body = input.skip(n as int);
            let none = Seq::<(Seq<u8>, usize)>::empty();
            assert(fresh_state() == state_with(Seq::empty(), none));
            lemma_thread_count_invariance(none, body, per_chunk_a, a, per_chunk_b, b);
            lemma_outcome(none, body, per_chunk_a, a);
            lemma_outcome(none, body, per_chunk_b, b);
            lemma_counted_distinct(body, per_chunk_a, a);
            lemma_counted_distinct(body, per_chunk_b, b);
            let run_a = body_outcome(fresh_state(), body, per_chunk_a, a);
            let run_b = body_outcome(fresh_state(), body, per_chunk_b, b);
            lemma_same_table_same_entries(run_a.0.list, run_b.0.list);
            assert(run_a.0.stack =~= Seq::<Seq<u8>>::empty());
            assert(run_b.0.stack =~= Seq::<Seq<u8>>::empty());
        },
        _ => {},
    }
}

/// The output of the folder is the same to the byte, whatever the number
/// of workers and the size of the chunks.
///
/// Take a trace whose lines behind the preamble are samples, and two folders
/// that have seen nothing and treat names and offsets alike. Folding leaves
/// both the same, gives the same result, and writes the same entries in the
/// same order.
pub proof fn lemma_collapse_identical(
    input: Seq<u8>,
    per_chunk_a: nat,
    a: Options,
    per_chunk_b: nat,
    b: Options,
)
    requires
        a.demangle == b.demangle,
        a.includeoffset == b.includeoffset,
        preamble(input) matches Preamble::Ends(n) ==> well_formed(
            lines(input.skip(n as int)),
            false,
        ),
    ensures
        collapsed(fresh_state(), input, per_chunk_a, a) == collapsed(
            fresh_state(),
            input,
            per_chunk_b,
            b,
        ),
        collapsed(fresh_state(), input, per_chunk_a, a).written() == collapsed(
            fresh_state(),
            input,
            per_chunk_b,
            b,
        ).written(),
{
    match preamble(input) {
        Preamble::Ends(n) => {
            let body = input.skip(n as int);
            let none = Seq::<(Seq<u8>, usize)>::empty();
            assert(fresh_state() == state_with(Seq::empty(), none));
            lemma_chunks_fold_alike(none, body, per_chunk_a, a);
            lemma_chunks_fold_alike(none, body, per_chunk_b, b);
            lemma_workers_irrelevant(fresh_state(), lines(body), a, b);
            lemma_outcome(none, body, per_chunk_a, a);
            lemma_outcome(none, body, per_chunk_b, b);
            let run_a = body_outcome(fresh_state(), body, per_chunk_a, a);
            let run_b = body_outcome(fresh_state(), body, per_chunk_b, b);
            assert(run_a.0.stack =~= Seq::<Seq<u8>>::empty());
            assert(run_b.0.stack =~= Seq::<Seq<u8>>::empty());
            assert(run_a.0.list == run_b.0.list);
        },
        _ => {},
    }
}

/// A folder that has seen nothing writes no stack down twice.
pub proof fn lemma_counted_distinct(body: Seq<u8>, per_chunk: nat, opt: Options)
    ensures
        distinct_stacks(body_outcome(fresh_state(), body, per_chunk, opt).0.list),
{
    lemma_chunks_distinct(Seq::empty(), body, per_chunk, opt);
    lemma_fold_distinct(fresh_state(), lines(body), opt);
}

/// The tables `tables` merged, first to last.
pub open spec fn merged(tables: Seq<Map<Seq<u8>, usize>>) -> Map<Seq<u8>, usize>
    decreases tables.len(),
{
    if tables.len() == 0 {
        Map::empty()
    } else {
        table_merge(merged(tables.drop_last()), tables.last())
    }
}

/// What the worker `worker` has counted when each chunk went to the worker
/// that `owner` names for it: the tables of its chunks, merged in their
/// order.
pub open spec fn share(tables: Seq<Map<Seq<u8>, usize>>, owner: Seq<nat>, worker: nat) -> Map<
    Seq<u8>,
    usize,
>
    decreases tables.len(),
{
    if tables.len() == 0 || owner.len() != tables.len() {
        Map::empty()
    } else if owner.last() == worker {
        table_merge(share(tables.drop_last(), owner.drop_last(), worker), tables.last())
    } else {
        share(tables.drop_last(), owner.drop_last(), worker)
    }
}

/// What `workers` workers have counted, each its share.
pub open spec fn shares(tables: Seq<Map<Seq<u8>, usize>>, owner: Seq<nat>, workers: nat) -> Seq<
    Map<Seq<u8>, usize>,
> {
    Seq::new(workers, |j: int| share(tables, owner, j as nat))
}

/// Merging one more table into one of several and merging them all then
/// gives what merging them all and the one more gives.
pub proof fn lemma_merged_update(
    tables: Seq<Map<Seq<u8>, usize>>,
    at: int,
    more: Map<Seq<u8>, usize>,
)
    requires
        0 <= at < tables.len(),
    ensures
        merged(tables.update(at, table_merge(tables[at], more))) == table_merge(
            merged(tables),
            more,
        ),
    decreases tables.len(),
{
    let next = tables.update(at, table_merge(tables[at], more));
    let t = tables.drop_last();
    if at == tables.len() - 1 {
        assert(next.drop_last() =~= t);
        lemma_merge_associates(merged(t), tables[at], more);
    } else {
        assert(next.drop_last() =~= t.update(at, table_merge(t[at], more)));
        lemma_merged_update(t, at, more);
        lemma_merge_associates(merged(t), more, tables.last());
        lemma_merge_commutes(more, tables.last());
        lemma_merge_associates(merged(t), tables.last(), more);
    }
}

/// Tables that are all empty merge to the empty table.
pub proof fn lemma_merged_empty(tables: Seq<Map<Seq<u8>, usize>>)
    requires
        forall|j: int| 0 <= j < tables.len() ==> #[trigger] tables[j] == Map::<
            Seq<u8>,
            usize,
        >::empty(),
    ensures
        merged(tables) == Map::<Seq<u8>, usize>::empty(),
    decreases tables.len(),
{
    if tables.len() > 0 {
        let t = tables.drop_last();
        assert forall|j: int| 0 <= j < t.len() implies #[trigger] t[j] == Map::<
            Seq<u8>,
            usize,
        >::empty() by {
            assert(t[j] == tables[j]);
        }
        lemma_merged_empty(t);
        lemma_merge_empty(Map::<Seq<u8>, usize>::empty());
    }
}

/// It does not matter which worker folds which chunk.
///
/// Let every chunk go to any one of the workers, each worker merge the
/// tables of its chunks, and the tables of the workers be merged in the end:
/// what comes out is the tables of the chunks merged in their order.
pub proof fn lemma_any_assignment(
    tables: Seq<Map<Seq<u8>, usize>>,
    owner: Seq<nat>,
    workers: nat,
)
    requires
        owner.len() == tables.len(),
        forall|i: int| 0 <= i < owner.len() ==> #[trigger] owner[i] < workers,
    ensures
        merged(shares(tables, owner, workers)) == merged(tables),
    decreases tables.len(),
{
    let now = shares(tables, owner, workers);
    if tables.len() == 0 {
        lemma_merged_empty(now);
    } else {
        let t = tables.drop_last();
        let o = owner.drop_last();
        let before = shares(t, o, workers);
        assert forall|i: int| 0 <= i < o.len() implies #[trigger] o[i] < workers by {
            assert(o[i] == owner[i]);
        }
        lemma_any_assignment(t, o, workers);
        let at = owner.last() as int;
        assert(owner[owner.len() - 1] < workers);
        assert(now =~= before.update(at, table_merge(before[at], tables.last())));
        lemma_merged_update(before, at, tables.last());
    }
}

} // verus!
