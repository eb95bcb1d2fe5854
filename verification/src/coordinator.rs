//! The coordinator: how many files are read at a time, in which batches, and
//! how the results of a batch are merged into the output.
//!
//! The coordinator reads nothing itself. It says which batch of files is to
//! be read next, takes the results of the reads in whatever order they
//! finished, and formats them by position. A failed read ends the run and
//! leaves no output.

use crate::format::{
    format_content, formatted_files, initial_state, lemma_formatting_continues,
    lemma_line_count_runs_across_files, state_after_files, FormatterState,
};
use crate::options::{CatArgs, FormatOptions};
use crate::reads::{
    arrival_of, arrival_order, lemma_every_position_has_one_result, tags_each_once, CatError,
    ReadFailure, ReadResult,
};
use vstd::prelude::*;

verus! {

/// How many reads are scheduled per hardware thread: reads wait on the disk
/// rather than on the processor.
pub const PARALLELISM_FACTOR: usize = 4;

/// The largest number of files read at the same time on a machine that
/// offers `parallelism` hardware threads.
pub open spec fn bound_for(parallelism: int) -> int {
    if parallelism * PARALLELISM_FACTOR - 1 >= 1 {
        parallelism * PARALLELISM_FACTOR - 1
    } else {
        1
    }
}

/// Computes the concurrency bound: one less than `PARALLELISM_FACTOR` reads
/// per hardware thread, and never less than one.
pub fn concurrency_bound(parallelism: usize) -> (bound: usize)
    requires
        parallelism * PARALLELISM_FACTOR <= usize::MAX,
    ensures
        bound == bound_for(parallelism as int),
        bound >= 1,
{
    let scaled: usize = parallelism * PARALLELISM_FACTOR;
    if scaled <= 1 {
        1
    } else {
        scaled - 1
    }
}

/// Where the batch that starts at position `start` ends: `bound` positions
/// further on, or at `total` if that comes first.
pub open spec fn batch_end_for(start: int, bound: int, total: int) -> int {
    if total - start <= bound {
        total
    } else {
        start + bound
    }
}

/// The error that the file at position `pos` gives rise to, if it could not
/// be read.
pub open spec fn failure_at(results: Seq<ReadResult>, pos: int) -> Option<CatError> {
    let result = results[arrival_of(results, pos)];
    match result.outcome {
        Ok(_) => None,
        Err(ReadFailure::Unreadable(reason)) => Some(
            CatError::Read { index: result.index, reason },
        ),
        Err(ReadFailure::InvalidEncoding) => Some(CatError::Encoding { index: result.index }),
    }
}

/// The error of the first file, by position, that could not be read among
/// those from `start` up to `end`.
pub open spec fn first_failure(results: Seq<ReadResult>, start: int, end: int) -> Option<
    CatError,
>
    decreases end - start,
{
    if start >= end {
        None
    } else {
        match failure_at(results, start) {
            Some(error) => Some(error),
            None => first_failure(results, start + 1, end),
        }
    }
}

/// The text of the file at position `pos`.
pub open spec fn text_at(results: Seq<ReadResult>, pos: int) -> Seq<char> {
    match results[arrival_of(results, pos)].outcome {
        Ok(text) => text@,
        Err(_) => Seq::empty(),
    }
}

/// The texts of the files at the positions from `start` up to `end`, by
/// position.
pub open spec fn texts_in_order(results: Seq<ReadResult>, start: int, end: int) -> Seq<
    Seq<char>,
> {
    Seq::new((end - start) as nat, |i: int| text_at(results, start + i))
}

/// What a batch of results comes to: the texts of its files by position,
/// where `results` holds one result for each position from `start` up to
/// `end` and every read succeeded; else the error that ends the run.
pub open spec fn batch_texts(results: Seq<ReadResult>, start: int, end: int) -> Result<
    Seq<Seq<char>>,
    CatError,
> {
    if !tags_each_once(results, start, end) {
        Err(CatError::Concurrency)
    } else {
        match first_failure(results, start, end) {
            Some(error) => Err(error),
            None => Ok(texts_in_order(results, start, end)),
        }
    }
}

/// Merges the results of one batch into the output.
///
/// `results` are the results of the files at the positions from `start` up
/// to `end`, in the order in which the reads finished. They are taken up by
/// position, and each text is formatted and appended to `out`, with `state`
/// handed on from file to file. Where a read failed, or the results are not
/// those of the batch, nothing is appended and the state is left alone.
pub fn drain_batch(
    results: &Vec<ReadResult>,
    start: usize,
    end: usize,
    opts: &FormatOptions,
    state: &mut FormatterState,
    out: &mut String,
) -> (r: Result<(), CatError>)
    ensures
        match batch_texts(results@, start as int, end as int) {
            Ok(texts) => {
                &&& r is Ok
                &&& final(out)@ == old(out)@ + formatted_files(*opts, old(state)@, texts)
                &&& final(state)@ == state_after_files(*opts, old(state)@, texts)
                &&& final(state)@.line_count >= old(state)@.line_count
            },
            Err(error) => {
                &&& r == Err::<(), CatError>(error)
                &&& final(out)@ == old(out)@
                &&& final(state)@ == old(state)@
            },
        },
{
    let order = match arrival_order(results, start, end) {
        Some(order) => order,
        None => {
            return Err(CatError::Concurrency);
        },
    };
    let n: usize = order.len();
    let mut i: usize = 0;
    while i < n
        invariant
            i <= n,
            n == end - start,
            order@.len() == n,
            tags_each_once(results@, start as int, end as int),
            forall|k: int| 0 <= k < n ==> #[trigger] order@[k] == arrival_of(results@, start + k),
            first_failure(results@, start as int, end as int) == first_failure(
                results@,
                start + i,
                end as int,
            ),
            forall|pos: int| start <= pos < start + i ==> #[trigger] failure_at(results@, pos) is None,
        decreases n - i,
    {
        proof {
            lemma_every_position_has_one_result(results@, start as int, end as int, start + i);
            assert(order@[i as int] == arrival_of(results@, start + i));
        }
        let result = &results[order[i]];
        match &result.outcome {
            Ok(_) => {},
            Err(ReadFailure::Unreadable(reason)) => {
                return Err(CatError::Read { index: result.index, reason: reason.clone() });
            },
            Err(ReadFailure::InvalidEncoding) => {
                return Err(CatError::Encoding { index: result.index });
            },
        }
        i = i + 1;
    }
    let ghost texts = texts_in_order(results@, start as int, end as int);
    proof {
        lemma_line_count_runs_across_files(*opts, old(state)@, texts);
    }
    let mut i: usize = 0;
    while i < n
        invariant
            i <= n,
            n == end - start,
            order@.len() == n,
            tags_each_once(results@, start as int, end as int),
            texts == texts_in_order(results@, start as int, end as int),
            forall|k: int| 0 <= k < n ==> #[trigger] order@[k] == arrival_of(results@, start + k),
            forall|pos: int| start <= pos < end ==> #[trigger] failure_at(results@, pos) is None,
            out@ == old(out)@ + formatted_files(*opts, old(state)@, texts.take(i as int)),
            state@ == state_after_files(*opts, old(state)@, texts.take(i as int)),
        decreases n - i,
    {
        proof {
            lemma_every_position_has_one_result(results@, start as int, end as int, start + i);
            assert(order@[i as int] == arrival_of(results@, start + i));
            assert(failure_at(results@, start + i) is None);
            assert(texts.take(i + 1).drop_last() =~= texts.take(i as int));
            assert(texts.take(i + 1).last() == text_at(results@, start + i));
        }
        match &results[order[i]].outcome {
            Ok(text) => {
                format_content(text.as_str(), opts, state, out);
            },
            Err(_) => {},
        }
        i = i + 1;
    }
    proof {
        assert(texts.take(n as int) =~= texts);
    }
    Ok(())
}

/// A run in progress: the files up to a position have been read and
/// formatted, and the next batch is awaited.
pub struct Coordinator {
    opts: FormatOptions,
    state: FormatterState,
    output: String,
    total: usize,
    next: usize,
    bound: usize,
    consumed: Ghost<Seq<Seq<char>>>,
}

/// Where a run stands after a step.
pub enum Progress {
    /// More files are to be read: the coordinator says which.
    Pending(Coordinator),
    /// The run is over, with the whole output or with the error that ended
    /// it.
    Finished(Result<String, CatError>),
}

impl Coordinator {
    #[verifier::type_invariant]
    spec fn well_formed(&self) -> bool {
        &&& self.bound >= 1
        &&& self.next < self.total
        &&& self.consumed@.len() == self.next
        &&& self.output@ == formatted_files(self.opts, initial_state(), self.consumed@)
        &&& self.state@ == state_after_files(self.opts, initial_state(), self.consumed@)
    }

    /// The formatting options of the run.
    pub closed spec fn options(&self) -> FormatOptions {
        self.opts
    }

    /// The number of files of the run.
    pub closed spec fn total(&self) -> usize {
        self.total
    }

    /// The largest number of files read at a time.
    pub closed spec fn bound(&self) -> usize {
        self.bound
    }

    /// The position of the first file that has not been taken up yet.
    pub closed spec fn position(&self) -> usize {
        self.next
    }

    /// The texts of the files taken up so far, by position.
    pub closed spec fn consumed(&self) -> Seq<Seq<char>> {
        self.consumed@
    }

    /// The position at which the awaited batch ends.
    pub open spec fn batch_end(&self) -> int {
        batch_end_for(self.position() as int, self.bound() as int, self.total() as int)
    }

    /// Begins a run over `total` files, of which at most `bound` are read
    /// at a time. A run over no files is over at once, with empty output.
    pub fn start(opts: FormatOptions, total: usize, bound: usize) -> (progress: Progress)
        requires
            bound >= 1,
        ensures
            total == 0 ==> (progress matches Progress::Finished(Ok(text)) && text@ == Seq::<
                char,
            >::empty()),
            total > 0 ==> (progress matches Progress::Pending(c) && c.options() == opts
                && c.total() == total && c.bound() == bound && c.position() == 0 && c.consumed()
                == Seq::<Seq<char>>::empty()),
    {
        if total == 0 {
            Progress::Finished(Ok(String::new()))
        } else {
            Progress::Pending(
                Coordinator {
                    opts,
                    state: FormatterState::new(),
                    output: String::new(),
                    total,
                    next: 0,
                    bound,
                    consumed: Ghost(Seq::empty()),
                },
            )
        }
    }

    /// The batch that is awaited: the positions of its first file and of the
    /// file after its last. It is not empty and holds no more files than
    /// the bound allows.
    pub fn batch(&self) -> (range: (usize, usize))
        ensures
            range.0 == self.position(),
            range.1 == self.batch_end(),
            range.0 < range.1 <= self.total(),
            range.1 - range.0 <= self.bound(),
    {
        proof {
            use_type_invariant(self);
        }
        if self.total - self.next <= self.bound {
            (self.next, self.total)
        } else {
            (self.next, self.next + self.bound)
        }
    }

    /// Takes up the results of the awaited batch, in whatever order the
    /// reads finished.
    ///
    /// Where the results are not those of the batch, or a read failed, the
    /// run is over with that error and without output. Otherwise the texts
    /// are formatted by position and added to the output; the run is then
    /// over if the batch was the last, and awaits the next batch if not.
    pub fn absorb(self, results: Vec<ReadResult>) -> (progress: Progress)
        ensures
            match batch_texts(results@, self.position() as int, self.batch_end()) {
                Err(error) => progress == Progress::Finished(Err(error)),
                Ok(texts) => if self.batch_end() == self.total() {
                    progress matches Progress::Finished(Ok(text)) && text@ == formatted_files(
                        self.options(),
                        initial_state(),
                        self.consumed() + texts,
                    )
                } else {
                    progress matches Progress::Pending(c) && c.options() == self.options()
                        && c.total() == self.total() && c.bound() == self.bound() && c.position()
                        == self.batch_end() && c.consumed() == self.consumed() + texts
                },
            },
    {
        proof {
            use_type_invariant(&self);
        }
        let (start, end) = self.batch();
        let Coordinator { opts, state, output, total, next, bound, consumed } = self;
        let mut state = state;
        let mut output = output;
        match drain_batch(&results, start, end, &opts, &mut state, &mut output) {
            Err(error) => Progress::Finished(Err(error)),
            Ok(()) => {
                let ghost texts = texts_in_order(results@, start as int, end as int);
                proof {
                    lemma_formatting_continues(opts, initial_state(), consumed@, texts);
                }
                if end == total {
                    Progress::Finished(Ok(output))
                } else {
                    Progress::Pending(
                        Coordinator {
                            opts,
                            state,
                            output,
                            total,
                            next: end,
                            bound,
                            consumed: Ghost(consumed@ + texts),
                        },
                    )
                }
            },
        }
    }
}

impl CatArgs {
    /// What a run with these arguments comes to, given the results of
    /// reading its files: the whole output, or the error that ends the run.
    pub open spec fn output(&self, results: Seq<ReadResult>) -> Result<Seq<char>, CatError> {
        match batch_texts(results, 0, self.value@.len() as int) {
            Ok(texts) => Ok(formatted_files(self.format_options(), initial_state(), texts)),
            Err(error) => Err(error),
        }
    }

    /// Runs over the results of reading the files named in `value`.
    ///
    /// `results` holds one result for each path, tagged with the position of
    /// the path, in any order. The texts are formatted in the order of the
    /// paths. If a file could not be read, the error of the first such file
    /// is returned; if the results are not those of the paths,
    /// `CatError::Concurrency`. There is no output then.
    pub fn exec(self, results: Vec<ReadResult>) -> (r: Result<String, CatError>)
        ensures
            match self.output(results@) {
                Ok(text) => r matches Ok(s) && s@ == text,
                Err(error) => r == Err::<String, CatError>(error),
            },
    {
        let opts = self.options();
        let mut state = FormatterState::new();
        let mut out = String::new();
        match drain_batch(&results, 0, self.value.len(), &opts, &mut state, &mut out) {
            Ok(()) => Ok(out),
            Err(error) => Err(error),
        }
    }
}

} // verus!
