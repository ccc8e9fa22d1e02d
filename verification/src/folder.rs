//! The folder: it reads the lines of a trace, keeps the frames of the sample
//! it is in, and counts each finished sample in its table.

use std::collections::VecDeque;
use vstd::prelude::*;
use vstd::slice::slice_subrange;
use vstd::string::*;
use vstd::utf8::*;
use crate::chunk::{chunk_end, chunk_len, lemma_chunk_len};
use crate::frame::{
    colons, expand_inlines, function_part, has_pair, inline_frames, rebuild_frame,
    replace_semicolons, split_function, transformed_frame, views, without_offset,
    without_signature, BACKTICK, COLON, GREATER, MINUS, SEMICOLON,
};
use crate::occurrences::{
    lemma_total_add, list_add, list_merge, rendered, total, wrapped_sum, Occurrences,
};
use crate::symbol::{
    demangle_symbol, demangled, fix_partially_demangled_rust_symbol, held, repaired,
};
use crate::text::{
    is_utf8, lemma_line_len, line_end, line_len, lines, parse_unsigned, parsed_unsigned, trim,
    trimmed,
};

verus! {

/// How a folder works.
#[derive(Clone, Copy, Debug)]
pub struct Options {
    /// Demangle the names of functions.
    pub demangle: bool,
    /// Keep the offsets of all frames but the leaf's.
    pub includeoffset: bool,
    /// The number of workers; 0 counts as 1.
    pub nthreads: usize,
}

impl Default for Options {
    /// No demangling, no offsets, one worker.
    fn default() -> (r: Self)
        ensures
            r == (Options { demangle: false, includeoffset: false, nthreads: 1 }),
    {
        Options { demangle: false, includeoffset: false, nthreads: 1 }
    }
}

/// Why a trace could not be folded.
#[derive(Clone, Copy, Debug, PartialEq, Eq, Structural)]
pub enum CollapseError {
    /// The input ended inside a sample, before the line with its count.
    TruncatedRecord,
    /// A line of the input is not UTF-8.
    EncodingError,
}

impl CollapseError {
    /// The error in words.
    pub fn message(&self) -> (r: String)
        ensures
            r@ == (match *self {
                CollapseError::TruncatedRecord => "Input data ends in the middle of a stack."@,
                CollapseError::EncodingError => "stream did not contain valid UTF-8"@,
            }),
    {
        match self {
            CollapseError::TruncatedRecord => "Input data ends in the middle of a stack.".to_owned(),
            CollapseError::EncodingError => "stream did not contain valid UTF-8".to_owned(),
        }
    }
}

/// The number of samples in a chunk of work, unless another is set.
pub const NSTACKS_PER_JOB: usize = 100;

/// What a folder knows in the middle of a trace: the frames of the sample it
/// is in, root first, and the samples counted so far.
pub struct FoldState {
    pub stack: Seq<Seq<u8>>,
    pub list: Seq<(Seq<u8>, usize)>,
}

/// Where a folder stands after some lines, and whether it stopped at one
/// that is not UTF-8.
pub struct Outcome {
    pub state: FoldState,
    pub invalid: bool,
}

/// A folder that has seen nothing.
pub open spec fn fresh_state() -> FoldState {
    FoldState { stack: Seq::empty(), list: Seq::empty() }
}

/// `-`, the frame of a line of which nothing is left.
pub open spec fn dash() -> Seq<u8> {
    seq![MINUS]
}

/// A frame line without what is cut off before the name is looked at: the
/// offset, unless offsets are kept, and the argument list if the line holds
/// a `::` or offsets are kept.
pub open spec fn cleaned_frame(line: Seq<u8>, keep_offset: bool) -> Seq<u8> {
    if keep_offset {
        without_signature(line)
    } else if has_pair(line, COLON, COLON) {
        without_signature(without_offset(line))
    } else {
        without_offset(line)
    }
}

/// Whether a line is taken apart at `->`.
pub open spec fn splits_inlines(line: Seq<u8>, keep_offset: bool) -> bool {
    keep_offset || has_pair(line, MINUS, GREATER)
}

/// Whether the `;` of a line are replaced.
pub open spec fn escapes(line: Seq<u8>, keep_offset: bool) -> bool {
    keep_offset || line.contains(SEMICOLON)
}

/// The frames that a cleaned frame becomes, `renamed` being what the
/// transform made of its function part.
pub open spec fn built_frames(
    frame: Seq<u8>,
    split: bool,
    escape: bool,
    keep_offset: bool,
    renamed: Option<Seq<u8>>,
) -> Seq<Seq<u8>> {
    let named = if frame.len() == 0 {
        dash()
    } else {
        transformed_frame(frame, keep_offset, renamed)
    };
    if split {
        inline_frames(named, escape)
    } else if escape {
        seq![colons(named)]
    } else {
        seq![named]
    }
}

/// What the transform that `opt` chooses makes of the function part of
/// `frame`: the demangler's result, or the repaired name.
pub open spec fn renamed(frame: Seq<u8>, opt: Options) -> Option<Seq<u8>> {
    match function_part(frame, opt.includeoffset) {
        None => None,
        Some(name) => if opt.demangle {
            demangled(name)
        } else {
            repaired(name)
        },
    }
}

/// The frames that a frame line adds to the stack, in the order in which
/// they stand there.
pub open spec fn line_frames(line: Seq<u8>, opt: Options) -> Seq<Seq<u8>> {
    let frame = cleaned_frame(line, opt.includeoffset);
    built_frames(
        frame,
        splits_inlines(line, opt.includeoffset),
        escapes(line, opt.includeoffset),
        opt.includeoffset,
        renamed(frame, opt),
    )
}

/// The frames joined by `;`.
pub open spec fn joined(frames: Seq<Seq<u8>>) -> Seq<u8>
    decreases frames.len(),
{
    if frames.len() == 0 {
        Seq::empty()
    } else if frames.len() == 1 {
        frames[0]
    } else {
        joined(frames.drop_last()) + seq![SEMICOLON] + frames.last()
    }
}

/// The stack with the offset cut off its leaf, where offsets are kept.
pub open spec fn leaf_trimmed(stack: Seq<Seq<u8>>, keep_offset: bool) -> Seq<Seq<u8>> {
    if keep_offset && stack.len() > 0 {
        stack.update(stack.len() - 1, without_offset(stack.last()))
    } else {
        stack
    }
}

/// Where offsets are kept, the leaf loses its offset and no other frame
/// does; where they are not, the stack is folded as it stands.
pub proof fn lemma_only_leaf_loses_offset(stack: Seq<Seq<u8>>, i: int)
    requires
        0 <= i < stack.len(),
    ensures
        leaf_trimmed(stack, true).len() == stack.len(),
        leaf_trimmed(stack, true)[i] == (if i == stack.len() - 1 {
            without_offset(stack[i])
        } else {
            stack[i]
        }),
        leaf_trimmed(stack, false) == stack,
{
}

/// The folded stack of a sample: its frames, root first, joined by `;`.
pub open spec fn folded(stack: Seq<Seq<u8>>, keep_offset: bool) -> Seq<u8> {
    joined(leaf_trimmed(stack, keep_offset))
}

/// The sum of two lengths, held at the end of the range of `usize`.
pub open spec fn capped_sum(a: usize, b: usize) -> usize {
    if a + b > usize::MAX {
        usize::MAX
    } else {
        (a + b) as usize
    }
}

/// The estimate of the length of the folded stack, for the room that is
/// taken before the frames are joined: the lengths of the frames and a byte
/// more for each, held at the end of the range of `usize`.
pub open spec fn estimated(stack: Seq<Seq<u8>>) -> usize
    decreases stack.len(),
{
    if stack.len() == 0 {
        0
    } else {
        capped_sum(capped_sum(estimated(stack.skip(1)), stack[0].len() as usize), 1)
    }
}

/// Whether lines that a folder can read end inside a sample: the last of
/// them that is not blank is a frame line, or all are blank and the folder
/// was inside a sample before, which `open` says.
pub open spec fn ends_inside_sample(ls: Seq<Seq<u8>>, open: bool) -> bool
    decreases ls.len(),
{
    if ls.len() == 0 {
        open
    } else if trimmed(ls[0]).len() == 0 {
        ends_inside_sample(ls.skip(1), open)
    } else {
        ends_inside_sample(ls.skip(1), parsed_unsigned(trimmed(ls[0]), false) is None)
    }
}

/// The state after a line of UTF-8. A blank line changes nothing; a line of
/// digits alone that write a count closes the sample; any other line is a
/// frame line.
pub open spec fn after_line(st: FoldState, line: Seq<u8>, opt: Options) -> FoldState {
    let text = trimmed(line);
    if text.len() == 0 {
        st
    } else {
        match parsed_unsigned(text, false) {
            Some(count) => FoldState {
                stack: Seq::empty(),
                list: list_add(st.list, folded(st.stack, opt.includeoffset), count),
            },
            None => FoldState { stack: line_frames(text, opt) + st.stack, list: st.list },
        }
    }
}

/// The state after the lines `ls`, read until one is not UTF-8.
pub open spec fn after_lines(st: FoldState, ls: Seq<Seq<u8>>, opt: Options) -> Outcome
    decreases ls.len(),
{
    if ls.len() == 0 {
        Outcome { state: st, invalid: false }
    } else if !valid_utf8(ls[0]) {
        Outcome { state: st, invalid: true }
    } else {
        after_lines(after_line(st, ls[0], opt), ls.skip(1), opt)
    }
}

/// The count that a line adds to the table: its own if it closes a sample,
/// 0 if it does not.
pub open spec fn line_count(line: Seq<u8>) -> usize {
    if trimmed(line).len() == 0 {
        0
    } else {
        match parsed_unsigned(trimmed(line), false) {
            Some(count) => count,
            None => 0,
        }
    }
}

/// The sum of the counts that the lines `ls` hold, up to the first line that
/// is not UTF-8.
pub open spec fn counts_read(ls: Seq<Seq<u8>>) -> usize
    decreases ls.len(),
{
    if ls.len() == 0 || !valid_utf8(ls[0]) {
        0
    } else {
        wrapped_sum(line_count(ls[0]), counts_read(ls.skip(1)))
    }
}

/// The counts of a table add up to the counts that were read: the sum of
/// the counts in the table of a folder grows by the count of every line that
/// closes a sample, and by nothing else.
pub proof fn lemma_counts_add_up(st: FoldState, ls: Seq<Seq<u8>>, opt: Options)
    ensures
        total(after_lines(st, ls, opt).state.list) == wrapped_sum(total(st.list), counts_read(ls)),
    decreases ls.len(),
{
    if ls.len() > 0 && valid_utf8(ls[0]) {
        let next = after_line(st, ls[0], opt);
        if trimmed(ls[0]).len() > 0 && parsed_unsigned(trimmed(ls[0]), false) is Some {
            lemma_total_add(
                st.list,
                folded(st.stack, opt.includeoffset),
                parsed_unsigned(trimmed(ls[0]), false).unwrap(),
            );
        }
        assert(total(next.list) == wrapped_sum(total(st.list), line_count(ls[0])));
        lemma_counts_add_up(next, ls.skip(1), opt);
    }
}

/// A folder that has read all the lines has frames left exactly when the
/// lines end inside a sample: when the last line that is not blank is a
/// frame line.
pub proof fn lemma_truncated_iff(st: FoldState, ls: Seq<Seq<u8>>, opt: Options)
    requires
        !after_lines(st, ls, opt).invalid,
    ensures
        after_lines(st, ls, opt).state.stack.len() > 0 <==> ends_inside_sample(
            ls,
            st.stack.len() > 0,
        ),
    decreases ls.len(),
{
    if ls.len() > 0 {
        lemma_truncated_iff(after_line(st, ls[0], opt), ls.skip(1), opt);
    }
}

/// The state after the text `s`, read line by line.
pub open spec fn after_text(st: FoldState, s: Seq<u8>, opt: Options) -> Outcome {
    after_lines(st, lines(s), opt)
}

/// What is to be said of a text that left the folder there: it held a line
/// that is not UTF-8, or it ended inside a sample, or it is in order.
pub open spec fn result_of(out: Outcome) -> Result<(), CollapseError> {
    if out.invalid {
        Err(CollapseError::EncodingError)
    } else if out.state.stack.len() > 0 {
        Err(CollapseError::TruncatedRecord)
    } else {
        Ok(())
    }
}

/// `opt` with a worker count of 0 made 1.
pub open spec fn normalized(opt: Options) -> Options {
    Options {
        demangle: opt.demangle,
        includeoffset: opt.includeoffset,
        nthreads: if opt.nthreads == 0 {
            1
        } else {
            opt.nthreads
        },
    }
}

/// Reads a frame line: what is left of it when offset and argument list are
/// cut off, whether it is taken apart at `->`, and whether its `;` are
/// replaced.
pub fn scan_line(line: &[u8], keep_offset: bool) -> (r: (bool, bool, &[u8]))
    ensures
        r.0 == splits_inlines(line@, keep_offset),
        r.1 == escapes(line@, keep_offset),
        r.2@ == cleaned_frame(line@, keep_offset),
        valid_utf8(line@) ==> valid_utf8(r.2@),
{
    if keep_offset {
        (true, true, crate::frame::uncpp(line))
    } else {
        let (has_inlines, could_be_cpp, has_semicolon, frame) = crate::frame::remove_offset(line);
        if could_be_cpp {
            (has_inlines, has_semicolon, crate::frame::uncpp(frame))
        } else {
            (has_inlines, has_semicolon, frame)
        }
    }
}

/// Makes the frames of a cleaned frame, `renamed` being what the transform
/// made of its function part.
pub fn build_frames(
    frame: &[u8],
    split: bool,
    escape: bool,
    keep_offset: bool,
    renamed: Option<Vec<u8>>,
) -> (r: Vec<Vec<u8>>)
    ensures
        views(r@) == built_frames(frame@, split, escape, keep_offset, held(renamed)),
        r@.len() >= 1,
{
    let named: Vec<u8> = if frame.len() == 0 {
        let mut d: Vec<u8> = Vec::new();
        d.push(MINUS);
        assert(d@ =~= dash());
        d
    } else {
        rebuild_frame(frame, keep_offset, renamed)
    };
    if split {
        expand_inlines(named.as_slice(), escape)
    } else {
        let only = if escape {
            replace_semicolons(named.as_slice())
        } else {
            named
        };
        let mut out: Vec<Vec<u8>> = Vec::new();
        let ghost want = only@;
        out.push(only);
        assert(views(out@) =~= seq![want]);
        out
    }
}

/// A stack collapser for the output of DTrace `ustack()`.
pub struct Folder {
    /// The number of samples in a chunk of work.
    nstacks_per_job: usize,
    /// How often each call path has been seen.
    occurrences: Occurrences,
    /// The frames of the sample that is being read, root first.
    stack: VecDeque<Vec<u8>>,
    /// An estimate of the length of the folded stack of that sample.
    stack_str_size: usize,
    opt: Options,
}

impl Folder {
    /// The folder is in order: its table is, and its estimate of the length
    /// of the folded stack is the one that belongs to the frames read.
    pub open spec fn wf(&self) -> bool {
        &&& self.inv()
        &&& self.size_estimate() == estimated(self.state().stack)
    }

    /// The table is in order, a chunk holds a sample at least, and the table
    /// is in the mode that the number of workers asks for.
    pub closed spec fn inv(&self) -> bool {
        &&& self.occurrences.wf()
        &&& self.nstacks_per_job >= 1
        &&& self.opt.nthreads >= 1
        &&& self.occurrences.shared() == (self.opt.nthreads > 1)
    }

    /// The estimate of the length of the folded stack of the sample that is
    /// being read.
    pub closed spec fn size_estimate(&self) -> usize {
        self.stack_str_size
    }

    /// The frames read and the samples counted.
    pub closed spec fn state(&self) -> FoldState {
        FoldState { stack: views(self.stack@), list: self.occurrences.list() }
    }

    /// How the folder works.
    pub closed spec fn options(&self) -> Options {
        self.opt
    }

    /// The number of samples in a chunk of work.
    pub closed spec fn chunk_size(&self) -> nat {
        self.nstacks_per_job as nat
    }

    /// Whether the folder works with more than one worker.
    pub open spec fn shared(&self) -> bool {
        self.options().nthreads > 1
    }

    /// A folder that works as `opt` says and has seen nothing.
    pub fn from(opt: Options) -> (r: Self)
        ensures
            r.wf(),
            r.state() == fresh_state(),
            r.size_estimate() == 0,
            r.options() == normalized(opt),
            r.chunk_size() == NSTACKS_PER_JOB,
    {
        let nthreads = if opt.nthreads == 0 {
            1
        } else {
            opt.nthreads
        };
        let r = Folder {
            nstacks_per_job: NSTACKS_PER_JOB,
            occurrences: Occurrences::new(nthreads),
            stack: VecDeque::new(),
            stack_str_size: 0,
            opt: Options { demangle: opt.demangle, includeoffset: opt.includeoffset, nthreads },
        };
        assert(r.state().stack =~= Seq::<Seq<u8>>::empty());
        r
    }

    /// Sets the number of workers, 0 counting as 1, and empties the table.
    pub fn set_nthreads(&mut self, n: usize)
        requires
            old(self).wf(),
        ensures
            final(self).wf(),
            final(self).options() == normalized(
                Options {
                    demangle: old(self).options().demangle,
                    includeoffset: old(self).options().includeoffset,
                    nthreads: n,
                },
            ),
            final(self).chunk_size() == old(self).chunk_size(),
            final(self).state() == (FoldState {
                stack: old(self).state().stack,
                list: Seq::empty(),
            }),
    {
        let nthreads = if n == 0 {
            1
        } else {
            n
        };
        self.opt.nthreads = nthreads;
        self.occurrences = Occurrences::new(nthreads);
    }

    /// Sets the number of samples in a chunk of work.
    pub fn set_nstacks_per_job(&mut self, n: usize)
        requires
            old(self).wf(),
            n >= 1,
        ensures
            final(self).wf(),
            final(self).options() == old(self).options(),
            final(self).chunk_size() == n,
            final(self).state() == old(self).state(),
    {
        self.nstacks_per_job = n;
    }

    /// How the folder works.
    pub fn opt(&self) -> (r: Options)
        ensures
            r == self.options(),
    {
        self.opt
    }

    /// The number of samples in a chunk of work.
    pub fn nstacks_per_job(&self) -> (r: usize)
        ensures
            r == self.chunk_size(),
    {
        self.nstacks_per_job
    }

    /// The table of the folder.
    pub fn occurrences(&self) -> (r: &Occurrences)
        requires
            self.wf(),
        ensures
            r.wf(),
            r.list() == self.state().list,
            r.shared() == self.shared(),
    {
        &self.occurrences
    }

    /// The estimate of the length of the folded stack of the sample that is
    /// being read.
    pub fn stack_str_size(&self) -> (r: usize)
        ensures
            r == self.size_estimate(),
    {
        self.stack_str_size
    }

    /// The number of frames read of the sample that is open.
    pub fn pending(&self) -> (n: usize)
        ensures
            n == self.state().stack.len(),
    {
        self.stack.len()
    }

    /// Cuts the argument list off a C++ name.
    pub fn uncpp(probe: &[u8]) -> (r: &[u8])
        ensures
            r@ == without_signature(probe@),
            valid_utf8(probe@) ==> valid_utf8(r@),
    {
        crate::frame::uncpp(probe)
    }

    /// Cuts the offset off a frame line and says whether the line holds a
    /// `->`, a `::`, a `;`.
    pub fn remove_offset(line: &[u8]) -> (r: (bool, bool, bool, &[u8]))
        ensures
            r.0 == has_pair(line@, MINUS, GREATER),
            r.1 == has_pair(line@, COLON, COLON),
            r.2 == line@.contains(SEMICOLON),
            r.3@ == without_offset(line@),
            valid_utf8(line@) ==> valid_utf8(r.3@),
    {
        crate::frame::remove_offset(line)
    }

    /// The function part of `frame`, which a transform gets to work on.
    pub fn function_part<'a>(&self, frame: &'a [u8]) -> (r: Option<&'a [u8]>)
        ensures
            match r {
                Some(name) => function_part(frame@, self.options().includeoffset) == Some(name@),
                None => function_part(frame@, self.options().includeoffset) is None,
            },
            valid_utf8(frame@) && r is Some ==> valid_utf8(r.unwrap()@),
    {
        split_function(frame, self.opt.includeoffset)
    }

    /// Puts what a transform made of the function part of `frame` in its
    /// place. `None` stands for a name that the transform left alone.
    pub fn transform_function_name(&self, frame: &[u8], transformed: Option<Vec<u8>>) -> (r: Vec<u8>)
        ensures
            r@ == transformed_frame(frame@, self.options().includeoffset, held(transformed)),
    {
        rebuild_frame(frame, self.opt.includeoffset, transformed)
    }

    /// Demangles the function part of `frame`.
    pub fn demangle(&self, frame: &[u8]) -> (r: Vec<u8>)
        requires
            valid_utf8(frame@),
        ensures
            r@ == transformed_frame(
                frame@,
                self.options().includeoffset,
                match function_part(frame@, self.options().includeoffset) {
                    Some(name) => demangled(name),
                    None => None,
                },
            ),
    {
        let transformed = match self.function_part(frame) {
            Some(name) => demangle_symbol(name),
            None => None,
        };
        self.transform_function_name(frame, transformed)
    }

    /// Repairs the function part of `frame` if it is a Rust name that was
    /// demangled only in part.
    pub fn fix_rust_symbol(&self, frame: &[u8]) -> (r: Vec<u8>)
        ensures
            r@ == transformed_frame(
                frame@,
                self.options().includeoffset,
                match function_part(frame@, self.options().includeoffset) {
                    Some(name) => repaired(name),
                    None => None,
                },
            ),
    {
        let transformed = match self.function_part(frame) {
            Some(name) => fix_partially_demangled_rust_symbol(name),
            None => None,
        };
        self.transform_function_name(frame, transformed)
    }

    /// Puts `frames` in front of the stack, in their order.
    fn push_frames(&mut self, frames: Vec<Vec<u8>>)
        requires
            old(self).wf(),
            frames@.len() >= 1,
        ensures
            final(self).wf(),
            final(self).options() == old(self).options(),
            final(self).chunk_size() == old(self).chunk_size(),
            final(self).state() == (FoldState {
                stack: views(frames@) + old(self).state().stack,
                list: old(self).state().list,
            }),
    {
        let mut frames = frames;
        let ghost all = frames@;
        let ghost below = views(self.stack@);
        assert(views(all.skip(all.len() as int)) + below =~= below);
        while frames.len() > 0
            invariant
                frames@ == all.take(frames@.len() as int),
                frames@.len() <= all.len(),
                all.len() >= 1,
                views(self.stack@) == views(all.skip(frames@.len() as int)) + below,
                self.occurrences == old(self).occurrences,
                self.opt == old(self).opt,
                self.nstacks_per_job == old(self).nstacks_per_job,
                old(self).wf(),
                self.stack_str_size == estimated(views(self.stack@)),
            decreases frames@.len(),
        {
            let ghost k = frames@.len() as int;
            let ghost under = self.stack@;
            let f = frames.pop().unwrap();
            self.stack_str_size = self.stack_str_size.saturating_add(f.len()).saturating_add(1);
            self.stack.push_front(f);
            proof {
                assert(frames@ =~= all.take(k - 1));
                assert(f == all[k - 1]);
                assert(views(self.stack@) =~= seq![f@] + views(under));
                assert(views(self.stack@).skip(1) =~= views(under));
                assert(views(self.stack@)[0] == f@);
                assert(views(all.skip(k - 1)) =~= seq![f@] + views(all.skip(k)));
                assert(seq![f@] + (views(all.skip(k)) + below) =~= (seq![f@] + views(all.skip(k)))
                    + below);
            }
        }
        assert(all.skip(0) =~= all);
    }

    /// Reads a frame line. `line` is the line without the white space
    /// around it.
    pub fn on_stack_line(&mut self, line: &[u8])
        requires
            old(self).wf(),
            valid_utf8(line@),
        ensures
            final(self).wf(),
            final(self).options() == old(self).options(),
            final(self).chunk_size() == old(self).chunk_size(),
            final(self).state() == (FoldState {
                stack: line_frames(line@, old(self).options()) + old(self).state().stack,
                list: old(self).state().list,
            }),
            final(self).size_estimate() == estimated(
                line_frames(line@, old(self).options()) + old(self).state().stack,
            ),
    {
        let keep = self.opt.includeoffset;
        let (split, escape, frame) = scan_line(line, keep);
        let transformed = match split_function(frame, keep) {
            None => None,
            Some(name) => if self.opt.demangle {
                demangle_symbol(name)
            } else {
                fix_partially_demangled_rust_symbol(name)
            },
        };
        let frames = build_frames(frame, split, escape, keep, transformed);
        self.push_frames(frames);
    }

    /// Closes the sample: folds the frames read, counts the folded stack
    /// `count` times, and starts over with no frames.
    pub fn on_stack_end(&mut self, count: usize)
        requires
            old(self).wf(),
        ensures
            final(self).wf(),
            final(self).options() == old(self).options(),
            final(self).chunk_size() == old(self).chunk_size(),
            final(self).state() == (FoldState {
                stack: Seq::empty(),
                list: list_add(
                    old(self).state().list,
                    folded(old(self).state().stack, old(self).options().includeoffset),
                    count,
                ),
            }),
            final(self).size_estimate() == 0,
    {
        let room = if self.stack_str_size <= 65536 {
            self.stack_str_size
        } else {
            65536
        };
        let mut stack_str: Vec<u8> = Vec::with_capacity(room);
        let n = self.stack.len();
        let keep = self.opt.includeoffset;
        let ghost frames = leaf_trimmed(views(self.stack@), keep);
        let mut i: usize = 0;
        assert(frames.take(0) =~= Seq::<Seq<u8>>::empty());
        while i < n
            invariant
                i <= n,
                n == self.stack@.len(),
                keep == self.opt.includeoffset,
                frames == leaf_trimmed(views(self.stack@), keep),
                stack_str@ == joined(frames.take(i as int)),
            decreases n - i,
        {
            let ghost before = stack_str@;
            if i > 0 {
                stack_str.push(SEMICOLON);
            }
            if keep && i == n - 1 {
                let leaf = crate::frame::remove_offset(self.stack[i].as_slice()).3;
                stack_str.extend_from_slice(leaf);
            } else {
                stack_str.extend_from_slice(self.stack[i].as_slice());
            }
            proof {
                let t = frames.take(i + 1);
                assert(t.drop_last() =~= frames.take(i as int));
                assert(t.last() == frames[i as int]);
                if i == 0 {
                    assert(stack_str@ =~= frames[0]);
                } else {
                    assert(stack_str@ =~= before + seq![SEMICOLON] + frames[i as int]);
                }
            }
            i += 1;
        }
        assert(frames.take(n as int) =~= frames);
        self.occurrences.add(stack_str, count);
        self.stack_str_size = 0;
        self.stack.clear();
        assert(views(self.stack@) =~= Seq::<Seq<u8>>::empty());
    }

    /// Reads one line of the trace, as it stands in the input. A line that
    /// is not UTF-8 is an error and changes nothing.
    pub fn consume_line(&mut self, line: &[u8]) -> (r: Result<(), CollapseError>)
        requires
            old(self).wf(),
        ensures
            final(self).wf(),
            final(self).options() == old(self).options(),
            final(self).chunk_size() == old(self).chunk_size(),
            valid_utf8(line@) ==> r is Ok && final(self).state() == after_line(
                old(self).state(),
                line@,
                old(self).options(),
            ),
            !valid_utf8(line@) ==> r == Err::<(), CollapseError>(CollapseError::EncodingError)
                && final(self).state() == old(self).state(),
    {
        if !is_utf8(line) {
            return Err(CollapseError::EncodingError);
        }
        let text = trim(line);
        if text.len() == 0 {
            return Ok(());
        }
        match parse_unsigned(text, false) {
            Some(count) => self.on_stack_end(count),
            None => self.on_stack_line(text),
        }
        Ok(())
    }

    /// Says whether the input may end here: not inside a sample.
    pub fn finish(&self) -> (r: Result<(), CollapseError>)
        requires
            self.wf(),
        ensures
            r == (if self.state().stack.len() > 0 {
                Err::<(), CollapseError>(CollapseError::TruncatedRecord)
            } else {
                Ok(())
            }),
    {
        if self.stack.len() != 0 || self.stack_str_size != 0 {
            Err(CollapseError::TruncatedRecord)
        } else {
            Ok(())
        }
    }

    /// Folds the samples of `input`, which starts behind the preamble, line
    /// by line. It stops at the first line that is not UTF-8.
    pub fn collapse_single_threaded(&mut self, input: &[u8]) -> (r: Result<(), CollapseError>)
        requires
            old(self).wf(),
        ensures
            final(self).wf(),
            final(self).options() == old(self).options(),
            final(self).chunk_size() == old(self).chunk_size(),
            final(self).state() == after_text(old(self).state(), input@, old(self).options()).state,
            r == result_of(after_text(old(self).state(), input@, old(self).options())),
    {
        let n = input.len();
        let mut pos: usize = 0;
        assert(input@.skip(0) =~= input@);
        while pos < n
            invariant
                pos <= n,
                n == input@.len(),
                self.wf(),
                self.options() == old(self).options(),
                self.chunk_size() == old(self).chunk_size(),
                after_text(old(self).state(), input@, old(self).options()) == after_text(
                    self.state(),
                    input@.skip(pos as int),
                    old(self).options(),
                ),
            decreases n - pos,
        {
            let end = line_end(input, pos);
            let line = slice_subrange(input, pos, end);
            proof {
                let rest = input@.skip(pos as int);
                crate::text::lemma_line_len(rest);
                assert(line@ =~= rest.take(line_len(rest)));
                assert(rest.skip(line_len(rest)) =~= input@.skip(end as int));
                let ls = lines(rest);
                assert(ls[0] == line@);
                assert(ls.skip(1) =~= lines(input@.skip(end as int)));
            }
            match self.consume_line(line) {
                Ok(()) => {},
                Err(e) => {
                    return Err(e);
                },
            }
            pos = end;
        }
        self.finish()
    }
}

/// What the workers have counted together, and the error that stopped them.
pub struct Pooled {
    pub list: Seq<(Seq<u8>, usize)>,
    pub error: Option<CollapseError>,
}

/// The table `list` after the chunks of `s` were folded, each from a fresh
/// state, and their tables merged into it one after the other; it stops at
/// the first chunk that cannot be folded.
pub open spec fn after_chunks(
    list: Seq<(Seq<u8>, usize)>,
    s: Seq<u8>,
    per_chunk: nat,
    opt: Options,
) -> Pooled
    decreases s.len(),
{
    if s.len() == 0 {
        Pooled { list, error: None }
    } else {
        proof {
            lemma_chunk_len(s, per_chunk);
        }
        let c = chunk_len(s, per_chunk);
        let out = after_text(fresh_state(), s.take(c), opt);
        match result_of(out) {
            Err(e) => Pooled { list, error: Some(e) },
            Ok(_) => after_chunks(list_merge(list, out.state.list), s.skip(c), per_chunk, opt),
        }
    }
}

/// Where the preamble of a trace ends.
#[derive(Clone, Copy, Debug, PartialEq, Eq, Structural)]
pub enum Preamble {
    /// The trace has no blank line: all of it is preamble.
    Missing,
    /// A line before the first blank line is not UTF-8.
    Invalid,
    /// The samples start at this place, behind the first blank line.
    Ends(usize),
}

/// Where the preamble of `s` ends, counted from `base`.
pub open spec fn preamble_from(s: Seq<u8>, base: int) -> Preamble
    decreases s.len(),
{
    if s.len() == 0 {
        Preamble::Missing
    } else {
        proof {
            lemma_line_len(s);
        }
        let l = line_len(s);
        if !valid_utf8(s.take(l)) {
            Preamble::Invalid
        } else if trimmed(s.take(l)).len() == 0 {
            Preamble::Ends((base + l) as usize)
        } else {
            preamble_from(s.skip(l), base + l)
        }
    }
}

/// Where the preamble of `s` ends: behind its first blank line.
pub open spec fn preamble(s: Seq<u8>) -> Preamble {
    preamble_from(s, 0)
}

/// The outcome of folding the samples `body`: the state it leaves and what
/// is to be said of it. One worker reads the text line by line; more of them
/// fold it chunk by chunk and leave the frames of the folder alone.
pub open spec fn body_outcome(st: FoldState, body: Seq<u8>, per_chunk: nat, opt: Options) -> (
    FoldState,
    Result<(), CollapseError>,
) {
    if opt.nthreads > 1 {
        let pooled = after_chunks(st.list, body, per_chunk, opt);
        (
            FoldState { stack: st.stack, list: pooled.list },
            match pooled.error {
                Some(e) => Err(e),
                None => Ok(()),
            },
        )
    } else {
        let out = after_text(st, body, opt);
        (out.state, result_of(out))
    }
}

/// What folding a trace comes to: the state it leaves, what it writes, and
/// whether it succeeds.
pub struct Collapsed {
    /// The state that the folder is left in.
    pub state: FoldState,
    /// The entries that are written, in their order.
    pub counted: Seq<(Seq<u8>, usize)>,
    /// Whether the trace could be folded.
    pub result: Result<(), CollapseError>,
}

impl Collapsed {
    /// The output: a line for each entry.
    pub open spec fn written(self) -> Seq<u8> {
        rendered(self.counted)
    }
}

/// What comes of folding the trace `input` from the state `st`. A trace
/// without a blank line has no samples: nothing is written and nothing
/// changes. A trace that cannot be folded writes nothing and leaves the state
/// where the folder stopped. Any other writes the table and leaves it empty.
pub open spec fn collapsed(st: FoldState, input: Seq<u8>, per_chunk: nat, opt: Options) -> Collapsed {
    match preamble(input) {
        Preamble::Missing => Collapsed { state: st, counted: Seq::empty(), result: Ok(()) },
        Preamble::Invalid => Collapsed {
            state: st,
            counted: Seq::empty(),
            result: Err(CollapseError::EncodingError),
        },
        Preamble::Ends(n) => {
            let run = body_outcome(st, input.skip(n as int), per_chunk, opt);
            match run.1 {
                Err(e) => Collapsed { state: run.0, counted: Seq::empty(), result: Err(e) },
                Ok(_) => Collapsed {
                    state: FoldState { stack: run.0.stack, list: Seq::empty() },
                    counted: run.0.list,
                    result: Ok(()),
                },
            }
        },
    }
}

/// A folder that has folded a trace is as good as new: it has no frames and
/// an empty table, so that what it makes of the next trace shows that trace
/// alone.
pub proof fn lemma_folder_reuse(input: Seq<u8>, per_chunk: nat, opt: Options)
    requires
        collapsed(fresh_state(), input, per_chunk, opt).result is Ok,
    ensures
        collapsed(fresh_state(), input, per_chunk, opt).state == fresh_state(),
{
    match preamble(input) {
        Preamble::Ends(n) => {
            let run = body_outcome(fresh_state(), input.skip(n as int), per_chunk, opt);
            assert(run.0.stack =~= Seq::<Seq<u8>>::empty());
        },
        _ => {},
    }
}

/// A bare address: `0x` and a hexadecimal numeral.
pub open spec fn is_address(line: Seq<u8>) -> bool {
    line.len() >= 2 && line[0] == 0x30 && line[1] == 0x78 && parsed_unsigned(line.skip(2), true)
        is Some
}

/// What a sample of text tells: `Some(true)` when it is a trace, which the
/// first count behind the preamble shows if frame lines came before it;
/// `Some(false)` when it is none; `None` when the sample ends too early to
/// tell. `blank` says whether a blank line was seen, `frames` whether a
/// frame line was.
pub open spec fn sniffed(s: Seq<u8>, blank: bool, frames: bool) -> Option<bool>
    decreases s.len(),
{
    if s.len() == 0 {
        None
    } else {
        proof {
            lemma_line_len(s);
        }
        let l = line_len(s);
        let line = trimmed(s.take(l));
        if !valid_utf8(s.take(l)) {
            Some(false)
        } else if line.len() == 0 {
            sniffed(s.skip(l), true, frames)
        } else if !blank {
            sniffed(s.skip(l), false, frames)
        } else if parsed_unsigned(line, false) is Some {
            Some(frames)
        } else if line.contains(BACKTICK) || is_address(line) {
            sniffed(s.skip(l), true, true)
        } else {
            Some(false)
        }
    }
}

/// Finds the end of the preamble of `input`.
pub fn skip_preamble(input: &[u8]) -> (r: Preamble)
    ensures
        r == preamble(input@),
        r matches Preamble::Ends(n) ==> n <= input@.len(),
{
    let n = input.len();
    let mut pos: usize = 0;
    assert(input@.skip(0) =~= input@);
    while pos < n
        invariant
            pos <= n,
            n == input@.len(),
            preamble(input@) == preamble_from(input@.skip(pos as int), pos as int),
        decreases n - pos,
    {
        let end = line_end(input, pos);
        let line = slice_subrange(input, pos, end);
        proof {
            let rest = input@.skip(pos as int);
            lemma_line_len(rest);
            assert(line@ =~= rest.take(line_len(rest)));
            assert(rest.skip(line_len(rest)) =~= input@.skip(end as int));
        }
        if !is_utf8(line) {
            return Preamble::Invalid;
        }
        if trim(line).len() == 0 {
            return Preamble::Ends(end);
        }
        pos = end;
    }
    Preamble::Missing
}

/// Whether `line` holds a backtick.
fn has_backtick(line: &[u8]) -> (r: bool)
    ensures
        r == line@.contains(BACKTICK),
{
    let i = crate::frame::find_first(line, BACKTICK);
    proof {
        crate::frame::lemma_first_index_of(line@, BACKTICK);
    }
    i < line.len()
}

/// Whether `line` is a bare address.
fn address(line: &[u8]) -> (r: bool)
    ensures
        r == is_address(line@),
{
    if line.len() >= 2 && line[0] == 0x30 && line[1] == 0x78 {
        let digits = slice_subrange(line, 2, line.len());
        assert(digits@ =~= line@.skip(2));
        parse_unsigned(digits, true).is_some()
    } else {
        false
    }
}

/// Looks at a sample of text and says whether it is a trace.
pub fn sniff(input: &[u8]) -> (r: Option<bool>)
    ensures
        r == sniffed(input@, false, false),
{
    let n = input.len();
    let mut pos: usize = 0;
    let mut blank = false;
    let mut frames = false;
    assert(input@.skip(0) =~= input@);
    while pos < n
        invariant
            pos <= n,
            n == input@.len(),
            sniffed(input@, false, false) == sniffed(input@.skip(pos as int), blank, frames),
        decreases n - pos,
    {
        let end = line_end(input, pos);
        let raw = slice_subrange(input, pos, end);
        proof {
            let rest = input@.skip(pos as int);
            lemma_line_len(rest);
            assert(raw@ =~= rest.take(line_len(rest)));
            assert(rest.skip(line_len(rest)) =~= input@.skip(end as int));
        }
        if !is_utf8(raw) {
            return Some(false);
        }
        let line = trim(raw);
        if line.len() == 0 {
            blank = true;
        } else if blank {
            if parse_unsigned(line, false).is_some() {
                return Some(frames);
            } else if has_backtick(line) || address(line) {
                frames = true;
            } else {
                return Some(false);
            }
        }
        pos = end;
    }
    None
}

impl Folder {
    /// A folder for a worker: it works as this one does and has seen
    /// nothing.
    pub fn worker(&self) -> (r: Folder)
        requires
            self.wf(),
        ensures
            r.wf(),
            r.state() == fresh_state(),
            r.options() == self.options(),
            r.chunk_size() == self.chunk_size(),
    {
        let r = Folder {
            nstacks_per_job: self.nstacks_per_job,
            occurrences: Occurrences::new(self.opt.nthreads),
            stack: VecDeque::new(),
            stack_str_size: 0,
            opt: self.opt,
        };
        assert(r.state().stack =~= Seq::<Seq<u8>>::empty());
        r
    }

    /// Takes over what a worker has counted.
    pub fn absorb(&mut self, counted: &Occurrences)
        requires
            old(self).wf(),
            counted.wf(),
        ensures
            final(self).wf(),
            final(self).options() == old(self).options(),
            final(self).chunk_size() == old(self).chunk_size(),
            final(self).state() == (FoldState {
                stack: old(self).state().stack,
                list: list_merge(old(self).state().list, counted.list()),
            }),
    {
        self.occurrences.merge(counted);
    }

    /// Folds the samples of `input`, which starts behind the preamble, the
    /// way a pool of workers does: cut into chunks of whole samples, each
    /// chunk folded by a worker that starts with nothing, and what the
    /// workers counted taken over. The chunks are folded here one after the
    /// other, in their order, up to the first that cannot be folded.
    pub fn collapse_multi_threaded(&mut self, input: &[u8]) -> (r: Result<(), CollapseError>)
        requires
            old(self).wf(),
            old(self).shared(),
        ensures
            final(self).wf(),
            final(self).options() == old(self).options(),
            final(self).chunk_size() == old(self).chunk_size(),
            final(self).state() == (FoldState {
                stack: old(self).state().stack,
                list: after_chunks(
                    old(self).state().list,
                    input@,
                    old(self).chunk_size(),
                    old(self).options(),
                ).list,
            }),
            r == (match after_chunks(
                old(self).state().list,
                input@,
                old(self).chunk_size(),
                old(self).options(),
            ).error {
                Some(e) => Err::<(), CollapseError>(e),
                None => Ok(()),
            }),
    {
        let n = input.len();
        let mut pos: usize = 0;
        assert(input@.skip(0) =~= input@);
        while pos < n
            invariant
                pos <= n,
                n == input@.len(),
                self.wf(),
                self.options() == old(self).options(),
                self.chunk_size() == old(self).chunk_size(),
                self.state().stack == old(self).state().stack,
                after_chunks(
                    old(self).state().list,
                    input@,
                    old(self).chunk_size(),
                    old(self).options(),
                ) == after_chunks(
                    self.state().list,
                    input@.skip(pos as int),
                    old(self).chunk_size(),
                    old(self).options(),
                ),
            decreases n - pos,
        {
            let end = chunk_end(input, pos, self.nstacks_per_job);
            let chunk = slice_subrange(input, pos, end);
            proof {
                let rest = input@.skip(pos as int);
                assert(chunk@ =~= rest.take(end - pos));
                assert(rest.skip(end - pos) =~= input@.skip(end as int));
            }
            let mut worker = self.worker();
            match worker.collapse_single_threaded(chunk) {
                Ok(()) => {},
                Err(e) => {
                    return Err(e);
                },
            }
            self.absorb(worker.occurrences());
            pos = end;
        }
        Ok(())
    }

    /// Writes the table behind what `writer` holds, a line for each stack,
    /// and empties it.
    pub fn write_and_clear(&mut self, writer: &mut Vec<u8>)
        requires
            old(self).wf(),
        ensures
            final(self).wf(),
            final(self).options() == old(self).options(),
            final(self).chunk_size() == old(self).chunk_size(),
            final(self).state() == (FoldState {
                stack: old(self).state().stack,
                list: Seq::empty(),
            }),
            final(writer)@ == old(writer)@ + rendered(old(self).state().list),
    {
        self.occurrences.write_and_clear(writer);
    }

    /// Folds a trace: skips its preamble, folds its samples, writes the
    /// table behind what `writer` holds and empties it. A trace without a
    /// blank line has no samples, and nothing is written for it. When the
    /// trace cannot be folded, nothing is written either, and the folder
    /// keeps what it had counted when it stopped.
    pub fn collapse(&mut self, input: &[u8], writer: &mut Vec<u8>) -> (r: Result<(), CollapseError>)
        requires
            old(self).wf(),
        ensures
            final(self).wf(),
            final(self).options() == old(self).options(),
            final(self).chunk_size() == old(self).chunk_size(),
            final(self).state() == collapsed(
                old(self).state(),
                input@,
                old(self).chunk_size(),
                old(self).options(),
            ).state,
            final(writer)@ == old(writer)@ + collapsed(
                old(self).state(),
                input@,
                old(self).chunk_size(),
                old(self).options(),
            ).written(),
            r == collapsed(
                old(self).state(),
                input@,
                old(self).chunk_size(),
                old(self).options(),
            ).result,
    {
        let start = match skip_preamble(input) {
            Preamble::Missing => {
                return Ok(());
            },
            Preamble::Invalid => {
                return Err(CollapseError::EncodingError);
            },
            Preamble::Ends(n) => n,
        };
        let body = slice_subrange(input, start, input.len());
        assert(body@ =~= input@.skip(start as int));
        assert(writer@ + rendered(Seq::empty()) =~= writer@);
        let folded = if self.occurrences.is_concurrent() {
            self.collapse_multi_threaded(body)
        } else {
            self.collapse_single_threaded(body)
        };
        match folded {
            Ok(()) => {},
            Err(e) => {
                return Err(e);
            },
        }
        self.write_and_clear(writer);
        Ok(())
    }

    /// Looks at a sample of text and says whether it is a trace that this
    /// folder reads: `None` when the sample is too short to tell.
    pub fn is_applicable(&mut self, input: &str) -> (r: Option<bool>)
        ensures
            *final(self) == *old(self),
            r == sniffed(input.spec_bytes(), false, false),
    {
        sniff(input.as_bytes())
    }
}

impl Default for Folder {
    /// A folder that works as `Options::default()` says.
    fn default() -> (r: Self)
        ensures
            r.wf(),
            r.state() == fresh_state(),
            r.options() == (Options { demangle: false, includeoffset: false, nthreads: 1 }),
            r.chunk_size() == NSTACKS_PER_JOB,
    {
        Folder::from(Options::default())
    }
}

} // verus!
