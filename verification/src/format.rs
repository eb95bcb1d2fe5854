//! The line formatter and the state it carries from line to line.

use crate::counter::{decimal, right_aligned, LineCounter};
use crate::lines::{lines_of, split_lines, texts_of};
use crate::options::FormatOptions;
use vstd::prelude::*;

verus! {

/// The width of the field that holds the line number.
pub const NUMBER_WIDTH: usize = 6;

/// What the formatter remembers between two lines.
pub struct StateView {
    /// The number given to the last line that was numbered; 0 before the
    /// first.
    pub line_count: nat,
    /// Whether the last line that was written was empty.
    pub previous_line_was_blank: bool,
}

/// The state of the formatter. It is made once per run and handed from line
/// to line and from file to file, in input order.
pub struct FormatterState {
    counter: LineCounter,
    previous_line_was_blank: bool,
}

impl View for FormatterState {
    type V = StateView;

    closed spec fn view(&self) -> StateView {
        StateView {
            line_count: self.counter@,
            previous_line_was_blank: self.previous_line_was_blank,
        }
    }
}

/// The state before the first line of a run.
pub open spec fn initial_state() -> StateView {
    StateView { line_count: 0, previous_line_was_blank: false }
}

/// The field in front of a numbered line: the number, right-aligned in
/// `NUMBER_WIDTH` columns, and a tab.
pub open spec fn number_field(number: nat) -> Seq<char> {
    right_aligned(decimal(number), NUMBER_WIDTH as nat).push('\t')
}

/// The field in front of an empty line where only non-empty lines are
/// numbered: as wide as a number field, without digits.
pub open spec fn blank_field() -> Seq<char> {
    Seq::new(NUMBER_WIDTH as nat, |i: int| ' ').push('\t')
}

/// What is written for the character `c` where tabs are shown.
pub open spec fn shown_char(c: char) -> Seq<char> {
    if c == '\t' {
        seq!['^', 'I']
    } else {
        seq![c]
    }
}

/// `line` with `^I` in place of each tab.
pub open spec fn with_tabs_shown(line: Seq<char>) -> Seq<char>
    decreases line.len(),
{
    if line.len() == 0 {
        Seq::empty()
    } else {
        with_tabs_shown(line.drop_last()) + shown_char(line.last())
    }
}

/// Whether `line` is left out: it is empty, the line before it was empty
/// too, and empty lines are squeezed.
pub open spec fn is_suppressed(opts: FormatOptions, state: StateView, line: Seq<char>) -> bool {
    opts.squeeze_blank && state.previous_line_was_blank && line.len() == 0
}

/// Whether `line` gets a number. `number_nonblank` decides where it is set.
pub open spec fn is_numbered(opts: FormatOptions, line: Seq<char>) -> bool {
    if opts.number_nonblank {
        line.len() > 0
    } else {
        opts.number_all
    }
}

/// What stands in front of the content of `line`.
pub open spec fn line_prefix(opts: FormatOptions, state: StateView, line: Seq<char>) -> Seq<
    char,
> {
    if is_numbered(opts, line) {
        number_field(state.line_count + 1)
    } else if opts.number_nonblank {
        blank_field()
    } else {
        Seq::empty()
    }
}

/// The content of `line` as it is written.
pub open spec fn line_body(opts: FormatOptions, line: Seq<char>) -> Seq<char> {
    if opts.show_tabs {
        with_tabs_shown(line)
    } else {
        line
    }
}

/// What follows the content of a line: the end marker where it is asked
/// for, and the line feed.
pub open spec fn line_suffix(opts: FormatOptions) -> Seq<char> {
    if opts.show_ends {
        seq!['$', '\n']
    } else {
        seq!['\n']
    }
}

/// The text written for `line` in state `state`; nothing for a line that is
/// left out.
pub open spec fn formatted_line(opts: FormatOptions, state: StateView, line: Seq<char>) -> Seq<
    char,
> {
    if is_suppressed(opts, state, line) {
        Seq::empty()
    } else {
        line_prefix(opts, state, line) + line_body(opts, line) + line_suffix(opts)
    }
}

/// The state after `line` has been handled in state `state`.
pub open spec fn state_after_line(
    opts: FormatOptions,
    state: StateView,
    line: Seq<char>,
) -> StateView {
    if is_suppressed(opts, state, line) {
        state
    } else {
        StateView {
            line_count: if is_numbered(opts, line) {
                state.line_count + 1
            } else {
                state.line_count
            },
            previous_line_was_blank: line.len() == 0,
        }
    }
}

/// The state after `lines` have been handled in order, starting in `state`.
pub open spec fn state_after_lines(
    opts: FormatOptions,
    state: StateView,
    lines: Seq<Seq<char>>,
) -> StateView
    decreases lines.len(),
{
    if lines.len() == 0 {
        state
    } else {
        state_after_line(opts, state_after_lines(opts, state, lines.drop_last()), lines.last())
    }
}

/// The text written for `lines`, handled in order, starting in `state`.
pub open spec fn formatted_lines(
    opts: FormatOptions,
    state: StateView,
    lines: Seq<Seq<char>>,
) -> Seq<char>
    decreases lines.len(),
{
    if lines.len() == 0 {
        Seq::empty()
    } else {
        formatted_lines(opts, state, lines.drop_last()) + formatted_line(
            opts,
            state_after_lines(opts, state, lines.drop_last()),
            lines.last(),
        )
    }
}

/// The text written for the content of one file, starting in `state`.
pub open spec fn formatted_content(
    opts: FormatOptions,
    state: StateView,
    content: Seq<char>,
) -> Seq<char> {
    formatted_lines(opts, state, lines_of(content))
}

/// The state after the content of one file has been handled.
pub open spec fn state_after_content(
    opts: FormatOptions,
    state: StateView,
    content: Seq<char>,
) -> StateView {
    state_after_lines(opts, state, lines_of(content))
}

/// The state after the contents of several files have been handled in
/// order: the state at the end of one file is the state at the start of the
/// next.
pub open spec fn state_after_files(
    opts: FormatOptions,
    state: StateView,
    contents: Seq<Seq<char>>,
) -> StateView
    decreases contents.len(),
{
    if contents.len() == 0 {
        state
    } else {
        state_after_content(
            opts,
            state_after_files(opts, state, contents.drop_last()),
            contents.last(),
        )
    }
}

/// The text written for the contents of several files, handled in order.
pub open spec fn formatted_files(
    opts: FormatOptions,
    state: StateView,
    contents: Seq<Seq<char>>,
) -> Seq<char>
    decreases contents.len(),
{
    if contents.len() == 0 {
        Seq::empty()
    } else {
        formatted_files(opts, state, contents.drop_last()) + formatted_content(
            opts,
            state_after_files(opts, state, contents.drop_last()),
            contents.last(),
        )
    }
}

/// Formatting the lines `first` and then the lines `second` is formatting
/// them all in one go: the state is handed on from the first lot to the
/// second.
pub proof fn lemma_lines_continue(
    opts: FormatOptions,
    state: StateView,
    first: Seq<Seq<char>>,
    second: Seq<Seq<char>>,
)
    ensures
        formatted_lines(opts, state, first + second) == formatted_lines(opts, state, first)
            + formatted_lines(opts, state_after_lines(opts, state, first), second),
        state_after_lines(opts, state, first + second) == state_after_lines(
            opts,
            state_after_lines(opts, state, first),
            second,
        ),
    decreases second.len(),
{
    if second.len() > 0 {
        assert((first + second).drop_last() =~= first + second.drop_last());
        lemma_lines_continue(opts, state, first, second.drop_last());
    }
}

/// Formatting the files `first` and then the files `second` is formatting
/// them all in one go: the state is handed on from the first lot to the
/// second.
pub proof fn lemma_formatting_continues(
    opts: FormatOptions,
    state: StateView,
    first: Seq<Seq<char>>,
    second: Seq<Seq<char>>,
)
    ensures
        formatted_files(opts, state, first + second) == formatted_files(opts, state, first)
            + formatted_files(opts, state_after_files(opts, state, first), second),
        state_after_files(opts, state, first + second) == state_after_files(
            opts,
            state_after_files(opts, state, first),
            second,
        ),
    decreases second.len(),
{
    if second.len() > 0 {
        assert((first + second).drop_last() =~= first + second.drop_last());
        lemma_formatting_continues(opts, state, first, second.drop_last());
    }
}

/// The line counter never goes down while lines are formatted.
pub proof fn lemma_line_count_never_decreases(
    opts: FormatOptions,
    state: StateView,
    lines: Seq<Seq<char>>,
)
    ensures
        state.line_count <= state_after_lines(opts, state, lines).line_count,
    decreases lines.len(),
{
    if lines.len() > 0 {
        lemma_line_count_never_decreases(opts, state, lines.drop_last());
    }
}

/// The line counter never goes down from one file to the next: it is not
/// set back where a new file begins.
pub proof fn lemma_line_count_runs_across_files(
    opts: FormatOptions,
    state: StateView,
    contents: Seq<Seq<char>>,
)
    ensures
        state.line_count <= state_after_files(opts, state, contents).line_count,
    decreases contents.len(),
{
    if contents.len() > 0 {
        lemma_line_count_runs_across_files(opts, state, contents.drop_last());
        lemma_line_count_never_decreases(
            opts,
            state_after_files(opts, state, contents.drop_last()),
            lines_of(contents.last()),
        );
    }
}

impl FormatterState {
    /// The state at the start of a run: no line numbered yet, and no empty
    /// line written.
    pub fn new() -> (state: FormatterState)
        ensures
            state@ == initial_state(),
    {
        FormatterState { counter: LineCounter::new(), previous_line_was_blank: false }
    }

    /// The number given to the last line that was numbered, if it fits in a
    /// machine integer; 0 before the first numbered line.
    pub fn line_count(&self) -> (count: Option<u64>)
        ensures
            match count {
                Some(n) => n == self@.line_count,
                None => self@.line_count > u64::MAX,
            },
    {
        self.counter.value()
    }

    /// Whether the last line that was written was empty.
    pub fn previous_line_was_blank(&self) -> (blank: bool)
        ensures
            blank == self@.previous_line_was_blank,
    {
        self.previous_line_was_blank
    }
}

/// Appends the content of `line` to `out`, with tabs shown where `opts`
/// asks for it.
fn write_body(line: &[char], opts: &FormatOptions, out: &mut String)
    ensures
        final(out)@ == old(out)@ + line_body(*opts, line@),
{
    let n = line.len();
    let mut i: usize = 0;
    while i < n
        invariant
            i <= n,
            n == line@.len(),
            out@ == old(out)@ + line_body(*opts, line@.take(i as int)),
        decreases n - i,
    {
        let c = line[i];
        proof {
            assert(line@.take(i + 1).drop_last() =~= line@.take(i as int));
        }
        if opts.show_tabs && c == '\t' {
            out.push('^');
            out.push('I');
        } else {
            out.push(c);
        }
        i = i + 1;
    }
    proof {
        assert(line@.take(n as int) =~= line@);
    }
}

/// Handles one line: appends to `out` what is to be written for it, and
/// brings `state` up to date.
///
/// An empty line that follows an empty line is left out where empty lines
/// are squeezed, and then nothing changes. Otherwise the line is written
/// with its number field, if it has one, its content, the end marker, if
/// asked for, and a line feed.
pub fn format_line(
    line: &[char],
    opts: &FormatOptions,
    state: &mut FormatterState,
    out: &mut String,
)
    ensures
        final(out)@ == old(out)@ + formatted_line(*opts, old(state)@, line@),
        final(state)@ == state_after_line(*opts, old(state)@, line@),
        final(state)@.line_count >= old(state)@.line_count,
{
    let blank = line.len() == 0;
    if opts.squeeze_blank && state.previous_line_was_blank && blank {
        return ;
    }
    let numbered = if opts.number_nonblank {
        !blank
    } else {
        opts.number_all
    };
    if numbered {
        state.counter.increment();
        state.counter.write_right_aligned(NUMBER_WIDTH, out);
        out.push('\t');
    } else if opts.number_nonblank {
        let mut i: usize = 0;
        while i < NUMBER_WIDTH
            invariant
                i <= NUMBER_WIDTH,
                out@ == old(out)@ + Seq::new(i as nat, |j: int| ' '),
            decreases NUMBER_WIDTH - i,
        {
            out.push(' ');
            i = i + 1;
        }
        out.push('\t');
    }
    write_body(line, opts, out);
    if opts.show_ends {
        out.push('$');
    }
    out.push('\n');
    state.previous_line_was_blank = blank;
}

/// Handles the content of one file: splits it into lines and handles them
/// in order.
pub fn format_content(
    content: &str,
    opts: &FormatOptions,
    state: &mut FormatterState,
    out: &mut String,
)
    ensures
        final(out)@ == old(out)@ + formatted_content(*opts, old(state)@, content@),
        final(state)@ == state_after_content(*opts, old(state)@, content@),
        final(state)@.line_count >= old(state)@.line_count,
{
    let lines = split_lines(content);
    let ghost all = lines_of(content@);
    proof {
        lemma_line_count_never_decreases(*opts, old(state)@, all);
    }
    let n = lines.len();
    let mut i: usize = 0;
    while i < n
        invariant
            i <= n,
            n == lines@.len(),
            texts_of(lines@) == all,
            out@ == old(out)@ + formatted_lines(*opts, old(state)@, all.take(i as int)),
            state@ == state_after_lines(*opts, old(state)@, all.take(i as int)),
        decreases n - i,
    {
        proof {
            assert(all.take(i + 1).drop_last() =~= all.take(i as int));
        }
        format_line(lines[i].as_slice(), opts, state, out);
        i = i + 1;
    }
    proof {
        assert(all.take(n as int) =~= all);
    }
}

} // verus!
