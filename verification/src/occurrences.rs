//! The table of call paths and how often each was seen.
//!
//! Counts are `usize` and add up modulo its range: a sum that no `usize`
//! holds wraps around, whatever the order in which its parts arrive.

use vstd::prelude::*;
use crate::text::same_bytes;

verus! {

/// The sum of two counts, wrapped around at the end of the range.
pub open spec fn wrapped_sum(a: usize, b: usize) -> usize {
    if a + b > usize::MAX {
        (a + b - usize::MAX - 1) as usize
    } else {
        (a + b) as usize
    }
}

/// The count that `table` holds for `stack`, 0 if it holds none.
pub open spec fn count_in(table: Map<Seq<u8>, usize>, stack: Seq<u8>) -> usize {
    if table.contains_key(stack) {
        table[stack]
    } else {
        0
    }
}

/// `table` after `stack` was seen `count` times more.
pub open spec fn table_add(table: Map<Seq<u8>, usize>, stack: Seq<u8>, count: usize) -> Map<
    Seq<u8>,
    usize,
> {
    table.insert(stack, wrapped_sum(count_in(table, stack), count))
}

/// The table that holds what `a` and `b` hold together: every stack of
/// either, with the sum of its two counts.
pub open spec fn table_merge(a: Map<Seq<u8>, usize>, b: Map<Seq<u8>, usize>) -> Map<
    Seq<u8>,
    usize,
> {
    Map::new(
        |k: Seq<u8>| a.contains_key(k) || b.contains_key(k),
        |k: Seq<u8>| wrapped_sum(count_in(a, k), count_in(b, k)),
    )
}

/// The place of `stack` in `list`, -1 if it is not there.
pub open spec fn position(list: Seq<(Seq<u8>, usize)>, stack: Seq<u8>) -> int
    decreases list.len(),
{
    if list.len() == 0 {
        -1
    } else if list.last().0 == stack {
        list.len() - 1
    } else {
        position(list.drop_last(), stack)
    }
}

/// No stack stands twice in `list`.
pub open spec fn distinct_stacks(list: Seq<(Seq<u8>, usize)>) -> bool {
    forall|i: int, j: int| 0 <= i < j < list.len() ==> (#[trigger] list[i]).0 != (#[trigger] list[j]).0
}

/// `list` after `stack` was seen `count` times more: its count grows where
/// it stands, and a stack that is new goes to the end.
pub open spec fn list_add(list: Seq<(Seq<u8>, usize)>, stack: Seq<u8>, count: usize) -> Seq<
    (Seq<u8>, usize),
> {
    let at = position(list, stack);
    if at < 0 {
        list.push((stack, count))
    } else {
        list.update(at, (stack, wrapped_sum(list[at].1, count)))
    }
}

/// `a` after every entry of `b` was added to it, first to last.
pub open spec fn list_merge(a: Seq<(Seq<u8>, usize)>, b: Seq<(Seq<u8>, usize)>) -> Seq<
    (Seq<u8>, usize),
>
    decreases b.len(),
{
    if b.len() == 0 {
        a
    } else {
        list_add(list_merge(a, b.drop_last()), b.last().0, b.last().1)
    }
}

/// The table that `list` writes down.
pub open spec fn table_of(list: Seq<(Seq<u8>, usize)>) -> Map<Seq<u8>, usize>
    decreases list.len(),
{
    if list.len() == 0 {
        Map::empty()
    } else {
        table_of(list.drop_last()).insert(list.last().0, list.last().1)
    }
}

/// The digits of `n`.
pub open spec fn decimal(n: nat) -> Seq<u8>
    decreases n,
{
    if n < 10 {
        seq![(0x30 + n) as u8]
    } else {
        decimal(n / 10).push((0x30 + n % 10) as u8)
    }
}

/// The line of output for one entry: the stack, a space, the count and a
/// line feed.
pub open spec fn entry_line(entry: (Seq<u8>, usize)) -> Seq<u8> {
    entry.0 + seq![0x20u8] + decimal(entry.1 as nat) + seq![0x0au8]
}

/// The output for `list`: the lines of its entries, first to last.
pub open spec fn rendered(list: Seq<(Seq<u8>, usize)>) -> Seq<u8>
    decreases list.len(),
{
    if list.len() == 0 {
        Seq::empty()
    } else {
        rendered(list.drop_last()) + entry_line(list.last())
    }
}

pub proof fn lemma_position(list: Seq<(Seq<u8>, usize)>, stack: Seq<u8>)
    ensures
        -1 <= position(list, stack) < list.len(),
        position(list, stack) >= 0 ==> list[position(list, stack)].0 == stack,
        forall|i: int| position(list, stack) < i < list.len() ==> (#[trigger] list[i]).0 != stack,
    decreases list.len(),
{
    if list.len() > 0 && list.last().0 != stack {
        let t = list.drop_last();
        lemma_position(t, stack);
        assert forall|i: int| position(list, stack) < i < list.len() implies (#[trigger] list[i]).0
            != stack by {
            if i < t.len() {
                assert(list[i] == t[i]);
            }
        }
        if position(list, stack) >= 0 {
            assert(list[position(list, stack)] == t[position(t, stack)]);
        }
    }
}

/// In a list without repeats a stack stands where it is found.
pub proof fn lemma_position_found(list: Seq<(Seq<u8>, usize)>, stack: Seq<u8>, i: int)
    requires
        distinct_stacks(list),
        0 <= i < list.len(),
        list[i].0 == stack,
    ensures
        position(list, stack) == i,
{
    lemma_position(list, stack);
    let p = position(list, stack);
    if p < i {
        assert(list[i].0 != stack);
    }
    if p > i {
        assert(list[i].0 != list[p].0);
    }
}

/// Where a stack stands depends on the stacks alone, not on the counts.
pub proof fn lemma_position_same_stacks(
    a: Seq<(Seq<u8>, usize)>,
    b: Seq<(Seq<u8>, usize)>,
    stack: Seq<u8>,
)
    requires
        a.len() == b.len(),
        forall|i: int| 0 <= i < a.len() ==> (#[trigger] a[i]).0 == b[i].0,
    ensures
        position(a, stack) == position(b, stack),
    decreases a.len(),
{
    if a.len() > 0 {
        assert(a.last().0 == a[a.len() - 1].0);
        assert(a[a.len() - 1].0 == b[a.len() - 1].0);
        let ta = a.drop_last();
        let tb = b.drop_last();
        assert forall|i: int| 0 <= i < ta.len() implies (#[trigger] ta[i]).0 == tb[i].0 by {
            assert(a[i].0 == b[i].0);
        }
        lemma_position_same_stacks(ta, tb, stack);
    }
}

/// The table of a list holds the stacks of the list, each with the count of
/// its last entry.
pub proof fn lemma_table_of(list: Seq<(Seq<u8>, usize)>, stack: Seq<u8>)
    ensures
        table_of(list).contains_key(stack) <==> position(list, stack) >= 0,
        position(list, stack) >= 0 ==> table_of(list)[stack] == list[position(list, stack)].1,
    decreases list.len(),
{
    if list.len() > 0 {
        let t = list.drop_last();
        lemma_table_of(t, stack);
        lemma_position(t, stack);
        if list.last().0 != stack && position(t, stack) >= 0 {
            assert(list[position(t, stack)] == t[position(t, stack)]);
        }
    }
}

/// Adding to a list is adding to its table.
pub proof fn lemma_list_add(list: Seq<(Seq<u8>, usize)>, stack: Seq<u8>, count: usize)
    ensures
        table_of(list_add(list, stack, count)) == table_add(table_of(list), stack, count),
        distinct_stacks(list) ==> distinct_stacks(list_add(list, stack, count)),
{
    let at = position(list, stack);
    let next = list_add(list, stack, count);
    lemma_position(list, stack);
    lemma_table_of(list, stack);
    if at < 0 {
        assert(next.drop_last() =~= list);
        if distinct_stacks(list) {
            assert forall|i: int, j: int| 0 <= i < j < next.len() implies (#[trigger] next[i]).0 != (
            #[trigger] next[j]).0 by {
                if j < list.len() {
                    assert(list[i].0 != list[j].0);
                } else {
                    assert(list[i].0 != stack);
                }
            }
        }
    } else {
        let want = table_add(table_of(list), stack, count);
        assert forall|k: Seq<u8>| #[trigger]
            table_of(next).contains_key(k) == want.contains_key(k) && (want.contains_key(k)
                ==> table_of(next)[k] == want[k]) by {
            lemma_position_same_stacks(next, list, k);
            lemma_table_of(next, k);
            lemma_table_of(list, k);
            lemma_position(list, k);
        }
        assert(table_of(next) =~= want);
        if distinct_stacks(list) {
            assert forall|i: int, j: int| 0 <= i < j < next.len() implies (#[trigger] next[i]).0 != (
            #[trigger] next[j]).0 by {
                assert(list[i].0 != list[j].0);
            }
        }
    }
}

/// Merging lists is merging their tables, for a second list without
/// repeats.
pub proof fn lemma_list_merge(a: Seq<(Seq<u8>, usize)>, b: Seq<(Seq<u8>, usize)>)
    requires
        distinct_stacks(b),
    ensures
        table_of(list_merge(a, b)) == table_merge(table_of(a), table_of(b)),
        distinct_stacks(a) ==> distinct_stacks(list_merge(a, b)),
    decreases b.len(),
{
    if b.len() == 0 {
        assert(table_of(a) =~= table_merge(table_of(a), table_of(b)));
    } else {
        let t = b.drop_last();
        let k = b.last().0;
        let c = b.last().1;
        assert forall|i: int, j: int| 0 <= i < j < t.len() implies (#[trigger] t[i]).0 != (
        #[trigger] t[j]).0 by {
            assert(b[i].0 != b[j].0);
        }
        lemma_list_merge(a, t);
        lemma_list_add(list_merge(a, t), k, c);
        lemma_table_of(t, k);
        lemma_position(t, k);
        if position(t, k) >= 0 {
            assert(b[position(t, k)].0 != b[b.len() - 1].0);
            assert(b[position(t, k)] == t[position(t, k)]);
        }
        assert(!table_of(t).contains_key(k));
        assert(table_add(table_merge(table_of(a), table_of(t)), k, c) =~= table_merge(
            table_of(a),
            table_of(b),
        ));
    }
}

/// The sum of the counts of a list.
pub open spec fn total(list: Seq<(Seq<u8>, usize)>) -> usize
    decreases list.len(),
{
    if list.len() == 0 {
        0
    } else {
        wrapped_sum(total(list.drop_last()), list.last().1)
    }
}

/// An addition adds its count to the sum of the counts.
pub proof fn lemma_total_add(list: Seq<(Seq<u8>, usize)>, stack: Seq<u8>, count: usize)
    ensures
        total(list_add(list, stack, count)) == wrapped_sum(total(list), count),
    decreases list.len(),
{
    let at = position(list, stack);
    let next = list_add(list, stack, count);
    lemma_position(list, stack);
    if at < 0 {
        assert(next.drop_last() =~= list);
    } else {
        let t = list.drop_last();
        let last = list.last();
        if at == list.len() - 1 {
            assert(next.drop_last() =~= t);
        } else {
            assert(list[at] == t[at]);
            assert(next.drop_last() =~= list_add(t, stack, count));
            assert(next.last() == last);
            lemma_total_add(t, stack, count);
        }
    }
}

/// A stack that is put behind a list stands last, and the others where
/// they stood.
pub proof fn lemma_position_push(
    list: Seq<(Seq<u8>, usize)>,
    entry: (Seq<u8>, usize),
    stack: Seq<u8>,
)
    ensures
        position(list.push(entry), stack) == (if entry.0 == stack {
            list.len() as int
        } else {
            position(list, stack)
        }),
{
    assert(list.push(entry).drop_last() =~= list);
}

/// A stack stands in a list after an addition if it stood there before or
/// is the one added.
pub proof fn lemma_list_add_holds(
    list: Seq<(Seq<u8>, usize)>,
    stack: Seq<u8>,
    count: usize,
    other: Seq<u8>,
)
    ensures
        position(list_add(list, stack, count), other) >= 0 <==> position(list, other) >= 0
            || other == stack,
{
    let at = position(list, stack);
    lemma_position(list, stack);
    lemma_position(list, other);
    if at < 0 {
        lemma_position_push(list, (stack, count), other);
    } else {
        lemma_position_same_stacks(list_add(list, stack, count), list, other);
    }
}

/// What stands in a list stands in every list that the list is merged into.
pub proof fn lemma_list_merge_holds(
    a: Seq<(Seq<u8>, usize)>,
    b: Seq<(Seq<u8>, usize)>,
    stack: Seq<u8>,
)
    requires
        position(b, stack) >= 0,
    ensures
        position(list_merge(a, b), stack) >= 0,
    decreases b.len(),
{
    if b.len() > 0 {
        let t = b.drop_last();
        lemma_list_add_holds(list_merge(a, t), b.last().0, b.last().1, stack);
        if b.last().0 != stack {
            lemma_list_merge_holds(a, t, stack);
        }
    }
}

/// Two additions to one stack are one addition of the sum.
pub proof fn lemma_list_add_twice(
    list: Seq<(Seq<u8>, usize)>,
    stack: Seq<u8>,
    first: usize,
    second: usize,
)
    ensures
        list_add(list_add(list, stack, first), stack, second) == list_add(
            list,
            stack,
            wrapped_sum(first, second),
        ),
{
    let at = position(list, stack);
    let once = list_add(list, stack, first);
    lemma_position(list, stack);
    if at < 0 {
        lemma_position_push(list, (stack, first), stack);
        assert(list_add(once, stack, second) =~= list.push((stack, wrapped_sum(first, second))));
    } else {
        lemma_position_same_stacks(once, list, stack);
        assert(list_add(once, stack, second) =~= list.update(
            at,
            (stack, wrapped_sum(list[at].1, wrapped_sum(first, second))),
        ));
    }
}

/// Additions to two stacks can change places when the first of the stacks
/// stands in the list already.
pub proof fn lemma_list_add_commutes(
    list: Seq<(Seq<u8>, usize)>,
    stack: Seq<u8>,
    count: usize,
    other: Seq<u8>,
    other_count: usize,
)
    requires
        position(list, stack) >= 0,
        stack != other,
    ensures
        list_add(list_add(list, stack, count), other, other_count) == list_add(
            list_add(list, other, other_count),
            stack,
            count,
        ),
{
    let p = position(list, stack);
    let q = position(list, other);
    lemma_position(list, stack);
    lemma_position(list, other);
    let one = list_add(list, stack, count);
    let two = list_add(list, other, other_count);
    lemma_position_same_stacks(one, list, other);
    if q < 0 {
        lemma_position_push(list, (other, other_count), stack);
        assert(list_add(one, other, other_count) =~= list_add(two, stack, count));
    } else {
        lemma_position_same_stacks(two, list, stack);
        assert(list_add(one, other, other_count) =~= list_add(two, stack, count));
    }
}

/// Adding to a merged list is adding to the second of the two lists and
/// merging then.
pub proof fn lemma_add_into_list_merge(
    a: Seq<(Seq<u8>, usize)>,
    b: Seq<(Seq<u8>, usize)>,
    stack: Seq<u8>,
    count: usize,
)
    ensures
        list_add(list_merge(a, b), stack, count) == list_merge(a, list_add(b, stack, count)),
    decreases b.len(),
{
    let at = position(b, stack);
    let next = list_add(b, stack, count);
    lemma_position(b, stack);
    if at < 0 {
        assert(next.drop_last() =~= b);
    } else {
        let t = b.drop_last();
        let last = b.last();
        let below = list_merge(a, t);
        if at == b.len() - 1 {
            assert(next.drop_last() =~= t);
            assert(next.last() == (stack, wrapped_sum(last.1, count)));
            lemma_list_add_twice(below, stack, last.1, count);
        } else {
            assert(b[at] == t[at]);
            assert(next.drop_last() =~= list_add(t, stack, count));
            assert(next.last() == last);
            lemma_add_into_list_merge(a, t, stack, count);
            lemma_list_merge_holds(a, t, stack);
            lemma_list_add_commutes(below, stack, count, last.0, last.1);
        }
    }
}

struct Entry {
    stack: Vec<u8>,
    count: usize,
}

/// The table of call paths. It keeps its entries in the order in which
/// their stacks were first seen.
pub struct Occurrences {
    concurrent: bool,
    entries: Vec<Entry>,
    buckets: Vec<Vec<usize>>,
}

spec fn mix(h: u64, b: u8) -> u64 {
    (h ^ (b as u64)).wrapping_mul(0x100000001b3u64)
}

spec fn hash_of(s: Seq<u8>) -> u64
    decreases s.len(),
{
    if s.len() == 0 {
        0xcbf29ce484222325u64
    } else {
        mix(hash_of(s.drop_last()), s.last())
    }
}

spec fn slot(s: Seq<u8>, buckets: int) -> int {
    (hash_of(s) as int) % buckets
}

fn slot_of(s: &[u8], buckets: usize) -> (b: usize)
    requires
        buckets > 0,
    ensures
        b == slot(s@, buckets as int),
        b < buckets,
{
    let n = s.len();
    let mut h: u64 = 0xcbf29ce484222325u64;
    let mut k: usize = 0;
    assert(s@.take(0) =~= Seq::<u8>::empty());
    while k < n
        invariant
            k <= n,
            n == s@.len(),
            h == hash_of(s@.take(k as int)),
        decreases n - k,
    {
        proof {
            let t = s@.take(k + 1);
            assert(t.last() == s@[k as int]);
            assert(t.drop_last() =~= s@.take(k as int));
        }
        h = (h ^ (s[k] as u64)).wrapping_mul(0x100000001b3u64);
        k += 1;
    }
    assert(s@.take(n as int) =~= s@);
    (h % (buckets as u64)) as usize
}

proof fn lemma_push_contains(s: Seq<usize>, x: usize)
    ensures
        s.push(x).contains(x),
        forall|y: usize| s.contains(y) ==> #[trigger] s.push(x).contains(y),
{
    assert(s.push(x)[s.len() as int] == x);
    assert forall|y: usize| s.contains(y) implies #[trigger] s.push(x).contains(y) by {
        let i = choose|i: int| 0 <= i < s.len() && s[i] == y;
        assert(s.push(x)[i] == y);
    }
}

/// Writes `n` in decimal behind what `out` holds.
pub fn push_decimal(out: &mut Vec<u8>, n: usize)
    ensures
        final(out)@ == old(out)@ + decimal(n as nat),
    decreases n,
{
    if n >= 10 {
        push_decimal(out, n / 10);
    }
    let ghost before = out@;
    out.push(0x30 + (n % 10) as u8);
    proof {
        if n >= 10 {
            assert(out@ =~= old(out)@ + decimal(n as nat));
        } else {
            assert(out@ =~= old(out)@ + decimal(n as nat));
        }
    }
}

impl Occurrences {
    /// The entries, in the order in which their stacks were first seen.
    pub closed spec fn list(&self) -> Seq<(Seq<u8>, usize)> {
        Seq::new(self.entries@.len(), |i: int| (self.entries@[i].stack@, self.entries@[i].count))
    }

    /// Whether the table was made for more than one worker.
    pub closed spec fn shared(&self) -> bool {
        self.concurrent
    }

    /// The table as a map from stack to count.
    pub open spec fn table(&self) -> Map<Seq<u8>, usize> {
        table_of(self.list())
    }

    /// The table is in order: no stack stands in it twice, and its index
    /// finds every entry.
    pub closed spec fn wf(&self) -> bool {
        &&& self.buckets@.len() > 0
        &&& distinct_stacks(self.list())
        &&& self.indexed(self.entries@.len() as int)
    }

    /// The index finds the first `n` entries and points to no other.
    spec fn indexed(&self, n: int) -> bool {
        &&& forall|i: int|
            0 <= i < n ==> (#[trigger] self.buckets@[slot(
                self.entries@[i].stack@,
                self.buckets@.len() as int,
            )])@.contains(i as usize)
        &&& forall|b: int, j: int|
            0 <= b < self.buckets@.len() && 0 <= j < self.buckets@[b]@.len() ==> (
            #[trigger] self.buckets@[b]@[j]) < n
    }

    /// No stack stands twice in the table.
    pub proof fn lemma_distinct(&self)
        requires
            self.wf(),
        ensures
            distinct_stacks(self.list()),
    {
    }

    /// An empty table for `nthreads` workers.
    pub fn new(nthreads: usize) -> (r: Self)
        ensures
            r.wf(),
            r.list() == Seq::<(Seq<u8>, usize)>::empty(),
            r.shared() == (nthreads > 1),
    {
        Self::with_mode(nthreads > 1)
    }

    fn with_mode(concurrent: bool) -> (r: Self)
        ensures
            r.wf(),
            r.list() == Seq::<(Seq<u8>, usize)>::empty(),
            r.shared() == concurrent,
    {
        let mut buckets: Vec<Vec<usize>> = Vec::new();
        let mut k: usize = 0;
        while k < 64
            invariant
                k <= 64,
                buckets@.len() == k,
                forall|b: int| 0 <= b < k ==> (#[trigger] buckets@[b])@.len() == 0,
            decreases 64 - k,
        {
            buckets.push(Vec::new());
            k += 1;
        }
        let r = Occurrences { concurrent, entries: Vec::new(), buckets };
        assert(r.list() =~= Seq::<(Seq<u8>, usize)>::empty());
        r
    }

    /// Whether the table was made for more than one worker.
    pub fn is_concurrent(&self) -> (r: bool)
        ensures
            r == self.shared(),
    {
        self.concurrent
    }

    /// The number of stacks in the table.
    pub fn len(&self) -> (n: usize)
        ensures
            n == self.list().len(),
    {
        self.entries.len()
    }

    /// Where `stack` stands among the entries.
    fn find(&self, stack: &[u8]) -> (r: Option<usize>)
        requires
            self.wf(),
        ensures
            match r {
                Some(i) => i == position(self.list(), stack@) && i < self.list().len(),
                None => position(self.list(), stack@) < 0,
            },
    {
        let b = slot_of(stack, self.buckets.len());
        let n = self.buckets[b].len();
        let mut j: usize = 0;
        while j < n
            invariant
                j <= n,
                self.wf(),
                b < self.buckets@.len(),
                b == slot(stack@, self.buckets@.len() as int),
                n == self.buckets@[b as int]@.len(),
                forall|m: int|
                    0 <= m < j ==> self.entries@[(#[trigger] self.buckets@[b as int]@[m]) as int].stack@
                        != stack@,
            decreases n - j,
        {
            let i = self.buckets[b][j];
            if same_bytes(self.entries[i].stack.as_slice(), stack) {
                proof {
                    assert(self.list()[i as int].0 == stack@);
                    lemma_position_found(self.list(), stack@, i as int);
                }
                return Some(i);
            }
            j += 1;
        }
        proof {
            lemma_position(self.list(), stack@);
            let p = position(self.list(), stack@);
            if p >= 0 {
                assert(p < self.entries.len());
                assert(self.list()[p].0 == stack@);
                assert(self.entries@[p].stack@ == stack@);
                let at = p as usize;
                assert(self.indexed(self.entries@.len() as int));
                let bucket = self.buckets@[slot(self.entries@[p].stack@, self.buckets@.len() as int)];
                assert(bucket@.contains(at));
                assert(bucket == self.buckets@[b as int]);
                let m = choose|m: int| 0 <= m < bucket@.len() && bucket@[m] == at;
                assert(self.entries@[self.buckets@[b as int]@[m] as int].stack@ != stack@);
            }
        }
        None
    }

    /// The count of `stack`, if the table holds it.
    pub fn count_of(&self, stack: &[u8]) -> (r: Option<usize>)
        requires
            self.wf(),
        ensures
            r == (if self.table().contains_key(stack@) {
                Some(self.table()[stack@])
            } else {
                None::<usize>
            }),
    {
        proof {
            lemma_table_of(self.list(), stack@);
        }
        match self.find(stack) {
            Some(i) => Some(self.entries[i].count),
            None => None,
        }
    }

    /// Counts `count` more samples of `stack`.
    pub fn add(&mut self, stack: Vec<u8>, count: usize)
        requires
            old(self).wf(),
        ensures
            final(self).wf(),
            final(self).shared() == old(self).shared(),
            final(self).list() == list_add(old(self).list(), stack@, count),
            final(self).table() == table_add(old(self).table(), stack@, count),
    {
        proof {
            lemma_list_add(self.list(), stack@, count);
            lemma_position(self.list(), stack@);
        }
        match self.find(stack.as_slice()) {
            Some(i) => {
                let sum = self.entries[i].count.wrapping_add(count);
                self.entries[i].count = sum;
                assert(self.list() =~= list_add(old(self).list(), stack@, count));
                assert(self.indexed(self.entries@.len() as int)) by {
                    assert forall|m: int| 0 <= m < self.entries@.len() implies (
                    #[trigger] self.buckets@[slot(
                        self.entries@[m].stack@,
                        self.buckets@.len() as int,
                    )])@.contains(m as usize) by {
                        assert(self.entries@[m].stack@ == old(self).entries@[m].stack@);
                    }
                }
            },
            None => {
                let i = self.entries.len();
                let b = slot_of(stack.as_slice(), self.buckets.len());
                let ghost key = stack@;
                self.entries.push(Entry { stack, count });
                let ghost bucket = self.buckets@[b as int]@;
                self.buckets[b].push(i);
                proof {
                    assert(self.list() =~= list_add(old(self).list(), key, count));
                    lemma_push_contains(bucket, i);
                    assert forall|m: int| 0 <= m < self.entries@.len() implies (
                    #[trigger] self.buckets@[slot(
                        self.entries@[m].stack@,
                        self.buckets@.len() as int,
                    )])@.contains(m as usize) by {
                        if m < i {
                            assert(self.entries@[m].stack@ == old(self).entries@[m].stack@);
                            let s = slot(self.entries@[m].stack@, self.buckets@.len() as int);
                            assert(old(self).buckets@[s]@.contains(m as usize));
                        }
                    }
                    assert(self.indexed(self.entries@.len() as int));
                }
                if self.entries.len() > self.buckets.len() && self.buckets.len() <= usize::MAX / 2 {
                    self.rebuild(self.buckets.len() * 2);
                }
            },
        }
    }

    /// Makes the index anew, with `buckets` buckets.
    fn rebuild(&mut self, buckets: usize)
        requires
            buckets > 0,
            distinct_stacks(old(self).list()),
        ensures
            final(self).wf(),
            final(self).list() == old(self).list(),
            final(self).shared() == old(self).shared(),
    {
        let mut fresh: Vec<Vec<usize>> = Vec::new();
        let mut k: usize = 0;
        while k < buckets
            invariant
                k <= buckets,
                fresh@.len() == k,
                forall|b: int| 0 <= b < k ==> (#[trigger] fresh@[b])@.len() == 0,
            decreases buckets - k,
        {
            fresh.push(Vec::new());
            k += 1;
        }
        self.buckets = fresh;
        let n = self.entries.len();
        let mut i: usize = 0;
        while i < n
            invariant
                i <= n,
                n == self.entries@.len(),
                self.entries == old(self).entries,
                self.concurrent == old(self).concurrent,
                self.buckets@.len() == buckets,
                buckets > 0,
                self.indexed(i as int),
            decreases n - i,
        {
            let b = slot_of(self.entries[i].stack.as_slice(), buckets);
            let ghost bucket = self.buckets@[b as int]@;
            let ghost before = self.buckets@;
            self.buckets[b].push(i);
            proof {
                lemma_push_contains(bucket, i);
                assert forall|m: int| 0 <= m < i + 1 implies (#[trigger] self.buckets@[slot(
                    self.entries@[m].stack@,
                    self.buckets@.len() as int,
                )])@.contains(m as usize) by {
                    if m < i {
                        let s = slot(self.entries@[m].stack@, self.buckets@.len() as int);
                        assert(before[s]@.contains(m as usize));
                    }
                }
            }
            i += 1;
        }
        assert(self.list() =~= old(self).list());
    }

    /// Adds every entry of `other` to the table.
    pub fn merge(&mut self, other: &Occurrences)
        requires
            old(self).wf(),
            other.wf(),
        ensures
            final(self).wf(),
            final(self).shared() == old(self).shared(),
            final(self).list() == list_merge(old(self).list(), other.list()),
            final(self).table() == table_merge(old(self).table(), other.table()),
    {
        let n = other.entries.len();
        let mut i: usize = 0;
        assert(other.list().take(0) =~= Seq::<(Seq<u8>, usize)>::empty());
        while i < n
            invariant
                i <= n,
                n == other.entries@.len(),
                n == other.list().len(),
                self.wf(),
                other.wf(),
                self.concurrent == old(self).concurrent,
                self.list() == list_merge(old(self).list(), other.list().take(i as int)),
            decreases n - i,
        {
            let stack = vstd::slice::slice_to_vec(other.entries[i].stack.as_slice());
            proof {
                let t = other.list().take(i + 1);
                assert(t.drop_last() =~= other.list().take(i as int));
                assert(t.last() == (stack@, other.entries@[i as int].count));
            }
            self.add(stack, other.entries[i].count);
            i += 1;
        }
        proof {
            assert(other.list().take(n as int) =~= other.list());
            lemma_list_merge(old(self).list(), other.list());
        }
    }

    /// Writes the table behind what `writer` holds, a line for each stack in
    /// the order in which they were first seen, and empties the table.
    pub fn write_and_clear(&mut self, writer: &mut Vec<u8>)
        requires
            old(self).wf(),
        ensures
            final(self).wf(),
            final(self).shared() == old(self).shared(),
            final(self).list() == Seq::<(Seq<u8>, usize)>::empty(),
            final(writer)@ == old(writer)@ + rendered(old(self).list()),
    {
        let n = self.entries.len();
        let mut i: usize = 0;
        let ghost start = writer@;
        let ghost list = self.list();
        assert(list.take(0) =~= Seq::<(Seq<u8>, usize)>::empty());
        assert(writer@ =~= start + rendered(list.take(0)));
        while i < n
            invariant
                i <= n,
                n == self.entries@.len(),
                list == self.list(),
                writer@ == start + rendered(list.take(i as int)),
            decreases n - i,
        {
            let ghost before = writer@;
            writer.extend_from_slice(self.entries[i].stack.as_slice());
            writer.push(0x20);
            push_decimal(writer, self.entries[i].count);
            writer.push(0x0a);
            proof {
                let t = list.take(i + 1);
                assert(t.drop_last() =~= list.take(i as int));
                assert(t.last() == list[i as int]);
                assert(writer@ =~= before + entry_line(list[i as int]));
                assert(start + (rendered(list.take(i as int)) + entry_line(list[i as int]))
                    =~= before + entry_line(list[i as int]));
            }
            i += 1;
        }
        assert(list.take(n as int) =~= list);
        *self = Self::with_mode(self.concurrent);
    }
}

} // verus!
