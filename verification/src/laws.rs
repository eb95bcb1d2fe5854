//! What holds of every run, whatever the files hold and in whatever order
//! the reads finish.

use crate::coordinator::{batch_texts, failure_at, first_failure, texts_in_order};
use crate::format::{
    formatted_content, formatted_files, formatted_line, formatted_lines, initial_state,
    is_suppressed, lemma_formatting_continues, lemma_line_count_runs_across_files,
    lemma_lines_continue, line_body, line_prefix, line_suffix, state_after_files,
    state_after_content, state_after_lines, StateView,
};
use crate::lines::{
    first_break, lemma_first_break_is_first, lines_of, without_carriage_return,
};
use crate::options::{CatArgs, FormatOptions};
use crate::reads::{
    arrival_of, lemma_every_position_has_one_result, tags_each_once, ReadResult,
};
use vstd::prelude::*;

verus! {

/// The lines of several files, one file after the other.
pub open spec fn all_lines(contents: Seq<Seq<char>>) -> Seq<Seq<char>>
    decreases contents.len(),
{
    if contents.len() == 0 {
        Seq::empty()
    } else {
        all_lines(contents.drop_last()) + lines_of(contents.last())
    }
}

/// Where one file ends and the next begins makes no difference: the files
/// are formatted as the one sequence of their lines.
pub proof fn lemma_files_are_their_lines(
    opts: FormatOptions,
    state: StateView,
    contents: Seq<Seq<char>>,
)
    ensures
        formatted_files(opts, state, contents) == formatted_lines(
            opts,
            state,
            all_lines(contents),
        ),
        state_after_files(opts, state, contents) == state_after_lines(
            opts,
            state,
            all_lines(contents),
        ),
    decreases contents.len(),
{
    if contents.len() > 0 {
        lemma_files_are_their_lines(opts, state, contents.drop_last());
        lemma_lines_continue(
            opts,
            state,
            all_lines(contents.drop_last()),
            lines_of(contents.last()),
        );
    }
}

/// The line counter grows monotonically over the whole run: after the first
/// `j` files it is at most what it is after the first `k`, for `j <= k`.
pub proof fn lemma_line_count_is_monotonic(
    opts: FormatOptions,
    state: StateView,
    contents: Seq<Seq<char>>,
    j: int,
    k: int,
)
    requires
        0 <= j <= k <= contents.len(),
    ensures
        state_after_files(opts, state, contents.take(j)).line_count <= state_after_files(
            opts,
            state,
            contents.take(k),
        ).line_count,
{
    let first = contents.take(j);
    let second = contents.subrange(j, k);
    assert(contents.take(k) =~= first + second);
    lemma_formatting_continues(opts, state, first, second);
    lemma_line_count_runs_across_files(opts, state_after_files(opts, state, first), second);
}

/// Whether line `i` of `lines` is an empty line that follows an empty line.
pub open spec fn repeats_blank(lines: Seq<Seq<char>>, i: int) -> bool {
    i > 0 && lines[i - 1].len() == 0 && lines[i].len() == 0
}

/// `lines` without the empty lines that follow an empty line: of each run
/// of empty lines the first one stays.
pub open spec fn without_repeated_blanks(lines: Seq<Seq<char>>) -> Seq<Seq<char>>
    decreases lines.len(),
{
    if lines.len() == 0 {
        Seq::empty()
    } else if repeats_blank(lines, lines.len() - 1) {
        without_repeated_blanks(lines.drop_last())
    } else {
        without_repeated_blanks(lines.drop_last()).push(lines.last())
    }
}

/// `opts` with `squeeze_blank` off.
pub open spec fn unsqueezed(opts: FormatOptions) -> FormatOptions {
    FormatOptions {
        number_all: opts.number_all,
        number_nonblank: opts.number_nonblank,
        show_ends: opts.show_ends,
        squeeze_blank: false,
        show_tabs: opts.show_tabs,
    }
}

/// In `without_repeated_blanks(lines)` no empty line follows an empty line,
/// and it ends as `lines` ends.
pub proof fn lemma_no_blank_repeats(lines: Seq<Seq<char>>)
    ensures
        forall|i: int|
            0 <= i < without_repeated_blanks(lines).len() ==> !repeats_blank(
                without_repeated_blanks(lines),
                i,
            ),
        lines.len() > 0 ==> without_repeated_blanks(lines).len() > 0 && without_repeated_blanks(
            lines,
        ).last() == lines.last(),
        lines.len() == 0 ==> without_repeated_blanks(lines).len() == 0,
    decreases lines.len(),
{
    if lines.len() > 0 {
        let head = lines.drop_last();
        let kept = without_repeated_blanks(head);
        lemma_no_blank_repeats(head);
        let all = without_repeated_blanks(lines);
        if repeats_blank(lines, lines.len() - 1) {
            assert(head.last() == lines[lines.len() - 2]);
            assert(kept.last() =~= lines.last());
        } else {
            assert forall|i: int| 0 <= i < all.len() implies !repeats_blank(all, i) by {
                if i < kept.len() {
                    assert(!repeats_blank(kept, i));
                    if i > 0 {
                        assert(all[i - 1] == kept[i - 1]);
                    }
                    assert(all[i] == kept[i]);
                } else if i > 0 {
                    assert(all[i - 1] == kept.last());
                    assert(head.last() == lines[lines.len() - 2]);
                }
            }
        }
    }
}

/// Lines among which no empty line follows an empty line are all kept.
pub proof fn lemma_nothing_to_squeeze(lines: Seq<Seq<char>>)
    requires
        forall|i: int| 0 <= i < lines.len() ==> !repeats_blank(lines, i),
    ensures
        without_repeated_blanks(lines) == lines,
    decreases lines.len(),
{
    if lines.len() > 0 {
        let head = lines.drop_last();
        assert forall|i: int| 0 <= i < head.len() implies !repeats_blank(head, i) by {
            assert(!repeats_blank(lines, i));
        }
        lemma_nothing_to_squeeze(head);
        assert(!repeats_blank(lines, lines.len() - 1));
        assert(head.push(lines.last()) =~= lines);
    }
}

/// Squeezing writes, of each run of empty lines, exactly the first: a run
/// with `squeeze_blank` on writes what a run with it off writes for the
/// lines without the empty lines that follow an empty line. The state at
/// the end is the same as well.
pub proof fn lemma_squeeze_keeps_one_blank_per_run(opts: FormatOptions, lines: Seq<Seq<char>>)
    requires
        opts.squeeze_blank,
    ensures
        formatted_lines(opts, initial_state(), lines) == formatted_lines(
            unsqueezed(opts),
            initial_state(),
            without_repeated_blanks(lines),
        ),
        state_after_lines(opts, initial_state(), lines) == state_after_lines(
            unsqueezed(opts),
            initial_state(),
            without_repeated_blanks(lines),
        ),
        state_after_lines(opts, initial_state(), lines).previous_line_was_blank == (lines.len() > 0
            && lines.last().len() == 0),
    decreases lines.len(),
{
    if lines.len() > 0 {
        let head = lines.drop_last();
        let line = lines.last();
        let kept = without_repeated_blanks(head);
        lemma_squeeze_keeps_one_blank_per_run(opts, head);
        let before = state_after_lines(opts, initial_state(), head);
        if head.len() > 0 {
            assert(head.last() == lines[lines.len() - 2]);
        }
        assert(is_suppressed(opts, before, line) == repeats_blank(lines, lines.len() - 1));
        if repeats_blank(lines, lines.len() - 1) {
            assert(formatted_lines(opts, initial_state(), lines) =~= formatted_lines(
                opts,
                initial_state(),
                head,
            ));
        } else {
            let all = kept.push(line);
            assert(all.drop_last() =~= kept);
            assert(all.last() == line);
            assert(!is_suppressed(unsqueezed(opts), before, line));
            assert(line_prefix(opts, before, line) == line_prefix(unsqueezed(opts), before, line));
            assert(line_body(opts, line) == line_body(unsqueezed(opts), line));
            assert(line_suffix(opts) == line_suffix(unsqueezed(opts)));
            assert(formatted_line(opts, before, line) == formatted_line(
                unsqueezed(opts),
                before,
                line,
            ));
        }
    }
}

/// Squeezing works across the files of a run as within one file: a run of
/// empty lines that goes on from the end of one file into the next is
/// written as one empty line.
pub proof fn lemma_squeeze_across_files(opts: FormatOptions, contents: Seq<Seq<char>>)
    requires
        opts.squeeze_blank,
    ensures
        formatted_files(opts, initial_state(), contents) == formatted_lines(
            unsqueezed(opts),
            initial_state(),
            without_repeated_blanks(all_lines(contents)),
        ),
{
    lemma_files_are_their_lines(opts, initial_state(), contents);
    lemma_squeeze_keeps_one_blank_per_run(opts, all_lines(contents));
}

/// Whether no formatting is asked for.
pub open spec fn is_plain(opts: FormatOptions) -> bool {
    !opts.number_all && !opts.number_nonblank && !opts.show_ends && !opts.squeeze_blank
        && !opts.show_tabs
}

/// Whether every line of `content` ends with a line feed that has no
/// carriage return in front of it.
pub open spec fn ends_lines_with_line_feed(content: Seq<char>) -> bool {
    &&& content.len() > 0 ==> content.last() == '\n'
    &&& forall|i: int|
        0 < i < content.len() && content[i] == '\n' ==> #[trigger] content[i - 1] != '\r'
}

/// Without formatting flags, a line is written as it is, with a line feed
/// after it.
pub proof fn lemma_plain_line_is_copied(opts: FormatOptions, state: StateView, line: Seq<char>)
    requires
        is_plain(opts),
    ensures
        formatted_lines(opts, state, seq![line]) == line.push('\n'),
{
    let one = seq![line];
    assert(one.drop_last() =~= Seq::<Seq<char>>::empty());
    assert(one.last() == line);
    assert(formatted_lines(opts, state, one.drop_last()) =~= Seq::<char>::empty());
    assert(state_after_lines(opts, state, one.drop_last()) == state);
    assert(formatted_line(opts, state, line) =~= line.push('\n'));
}

/// Without formatting flags, a text whose lines all end with a bare line
/// feed is written as it is.
pub proof fn lemma_plain_content_is_copied(
    opts: FormatOptions,
    state: StateView,
    content: Seq<char>,
)
    requires
        is_plain(opts),
        ends_lines_with_line_feed(content),
    ensures
        formatted_content(opts, state, content) == content,
    decreases content.len(),
{
    if content.len() > 0 {
        lemma_first_break_is_first(content);
        let n = first_break(content);
        assert(n < content.len()) by {
            if n == content.len() {
                assert(content[content.len() - 1] != '\n');
            }
        }
        let line = content.take(n);
        let rest = content.skip(n + 1);
        assert(without_carriage_return(line) == line) by {
            if n > 0 {
                assert(line.last() == content[n - 1]);
            }
        }
        assert(ends_lines_with_line_feed(rest)) by {
            if rest.len() > 0 {
                assert(rest.last() == content.last());
            }
            assert forall|i: int| 0 < i < rest.len() && rest[i] == '\n' implies #[trigger] rest[i
                - 1] != '\r' by {
                assert(rest[i] == content[n + 1 + i]);
                assert(rest[i - 1] == content[n + 1 + i - 1]);
            }
        }
        let one = seq![line];
        let next = state_after_lines(opts, state, one);
        lemma_plain_content_is_copied(opts, next, rest);
        lemma_lines_continue(opts, state, one, lines_of(rest));
        lemma_plain_line_is_copied(opts, state, line);
        assert(line.push('\n') + rest =~= content);
    }
}

/// Without formatting flags, a text is written as it is only if all its
/// lines end with a bare line feed: a last line without a line feed gets
/// one, and a carriage return in front of a line feed is dropped.
pub proof fn lemma_only_line_feed_ended_content_is_copied(
    opts: FormatOptions,
    state: StateView,
    content: Seq<char>,
)
    requires
        is_plain(opts),
        formatted_content(opts, state, content) == content,
    ensures
        ends_lines_with_line_feed(content),
    decreases content.len(),
{
    if content.len() > 0 {
        lemma_first_break_is_first(content);
        let n = first_break(content);
        let whole = content.take(n);
        let line = without_carriage_return(whole);
        let one = seq![line];
        lemma_plain_line_is_copied(opts, state, line);
        if n == content.len() {
            assert(whole =~= content);
            assert(lines_of(content) =~= seq![content]);
            assert(formatted_content(opts, state, content).len() == content.len() + 1);
        } else {
            let rest = content.skip(n + 1);
            let next = state_after_lines(opts, state, one);
            let tail = formatted_content(opts, next, rest);
            lemma_lines_continue(opts, state, one, lines_of(rest));
            assert(formatted_content(opts, state, content) == line.push('\n') + tail);
            if n > 0 && whole.last() == '\r' {
                assert((line.push('\n') + tail)[n - 1] == '\n');
                assert(content[n - 1] == whole.last());
            } else {
                assert(tail =~= (line.push('\n') + tail).skip(n + 1));
                lemma_only_line_feed_ended_content_is_copied(opts, next, rest);
                if rest.len() > 0 {
                    assert(rest.last() == content.last());
                }
                assert forall|i: int|
                    0 < i < content.len() && content[i] == '\n' implies #[trigger] content[i - 1]
                    != '\r' by {
                    if i == n {
                        if n > 0 {
                            assert(content[n - 1] == whole.last());
                        }
                    } else if i == n + 1 {
                    } else {
                        assert(rest[i - n - 1] == content[i]);
                        assert(rest[i - n - 1 - 1] == content[i - 1]);
                    }
                }
            }
        }
    }
}

/// Without formatting flags, the output is the input files one after the
/// other, where the lines of every file end with a bare line feed.
pub proof fn lemma_plain_run_concatenates(
    opts: FormatOptions,
    state: StateView,
    contents: Seq<Seq<char>>,
)
    requires
        is_plain(opts),
        forall|i: int| 0 <= i < contents.len() ==> ends_lines_with_line_feed(#[trigger] contents[i]),
    ensures
        formatted_files(opts, state, contents) == contents.flatten(),
    decreases contents.len(),
{
    if contents.len() > 0 {
        let head = contents.drop_last();
        assert forall|i: int| 0 <= i < head.len() implies ends_lines_with_line_feed(
            #[trigger] head[i],
        ) by {
            assert(head[i] == contents[i]);
        }
        lemma_plain_run_concatenates(opts, state, head);
        lemma_plain_content_is_copied(
            opts,
            state_after_files(opts, state, head),
            contents.last(),
        );
        head.lemma_flatten_push(contents.last());
        assert(head.push(contents.last()) =~= contents);
    }
}

/// The first file of a run is formatted first, and the files after it are
/// formatted in the state that it leaves.
proof fn lemma_first_file(opts: FormatOptions, state: StateView, contents: Seq<Seq<char>>)
    requires
        contents.len() > 0,
    ensures
        formatted_files(opts, state, contents) == formatted_content(
            opts,
            state,
            contents.first(),
        ) + formatted_files(
            opts,
            state_after_content(opts, state, contents.first()),
            contents.drop_first(),
        ),
        contents.flatten() == contents.first() + contents.drop_first().flatten(),
{
    let one = seq![contents.first()];
    assert(one + contents.drop_first() =~= contents);
    lemma_formatting_continues(opts, state, one, contents.drop_first());
    assert(one.drop_last() =~= Seq::<Seq<char>>::empty());
    assert(one.last() == contents.first());
    assert(formatted_files(opts, state, one.drop_last()) =~= Seq::<char>::empty());
    assert(state_after_files(opts, state, one.drop_last()) == state);
    assert(formatted_files(opts, state, one) =~= formatted_content(
        opts,
        state,
        contents.first(),
    ));
}

/// Without formatting flags, the first line of a text is written with a
/// line feed after it, and the rest of the text is formatted after it.
proof fn lemma_first_plain_line(opts: FormatOptions, state: StateView, content: Seq<char>)
    requires
        is_plain(opts),
        0 <= first_break(content) < content.len(),
    ensures
        ({
            let n = first_break(content);
            let line = without_carriage_return(content.take(n));
            let next = state_after_lines(opts, state, seq![line]);
            &&& formatted_content(opts, state, content) == line.push('\n') + formatted_content(
                opts,
                next,
                content.skip(n + 1),
            )
            &&& state_after_content(opts, state, content) == state_after_content(
                opts,
                next,
                content.skip(n + 1),
            )
        }),
{
    let n = first_break(content);
    let line = without_carriage_return(content.take(n));
    lemma_plain_line_is_copied(opts, state, line);
    lemma_lines_continue(opts, state, seq![line], lines_of(content.skip(n + 1)));
}

/// Where, without formatting flags, a text followed by `more_input` is
/// written as itself followed by `more_output`: either all its lines end
/// with a bare line feed, and then nothing was added or dropped; or its
/// last line had no line feed, and then the line feed that was added
/// stands at the head of `more_input`.
proof fn lemma_plain_content_followed(
    opts: FormatOptions,
    state: StateView,
    content: Seq<char>,
    more_output: Seq<char>,
    more_input: Seq<char>,
)
    requires
        is_plain(opts),
        formatted_content(opts, state, content) + more_output == content + more_input,
    ensures
        ends_lines_with_line_feed(content) ==> more_output == more_input,
        !ends_lines_with_line_feed(content) ==> seq!['\n'] + more_output == more_input,
    decreases content.len(),
{
    let written = formatted_content(opts, state, content);
    if content.len() == 0 {
        assert(more_output =~= written + more_output);
        assert(more_input =~= content + more_input);
    } else {
        lemma_first_break_is_first(content);
        let n = first_break(content);
        let whole = content.take(n);
        let line = without_carriage_return(whole);
        if n == content.len() {
            assert(whole =~= content);
            assert(lines_of(content) =~= seq![content]);
            lemma_plain_line_is_copied(opts, state, content);
            assert(content[content.len() - 1] != '\n');
            assert(seq!['\n'] + more_output =~= (written + more_output).skip(
                content.len() as int,
            ));
            assert(more_input =~= (content + more_input).skip(content.len() as int));
        } else {
            let rest = content.skip(n + 1);
            let next = state_after_lines(opts, state, seq![line]);
            let tail = formatted_content(opts, next, rest);
            lemma_first_plain_line(opts, state, content);
            if n > 0 && whole.last() == '\r' {
                assert((written + more_output)[n - 1] == '\n');
                assert((content + more_input)[n - 1] == whole.last());
            } else {
                assert(tail + more_output =~= (written + more_output).skip(n + 1));
                assert(rest + more_input =~= (content + more_input).skip(n + 1));
                lemma_plain_content_followed(opts, next, rest, more_output, more_input);
                if rest.len() > 0 {
                    assert(rest.last() == content.last());
                }
                if n > 0 {
                    assert(content[n - 1] == whole.last());
                }
                if ends_lines_with_line_feed(rest) {
                    assert forall|i: int|
                        0 < i < content.len() && content[i] == '\n' implies #[trigger] content[i
                        - 1] != '\r' by {
                        if i > n + 1 {
                            assert(rest[i - n - 1] == content[i]);
                            assert(rest[i - n - 1 - 1] == content[i - 1]);
                        }
                    }
                } else if ends_lines_with_line_feed(content) {
                    assert forall|i: int|
                        0 < i < rest.len() && rest[i] == '\n' implies #[trigger] rest[i - 1]
                        != '\r' by {
                        assert(content[n + 1 + i] == rest[i]);
                        assert(content[n + 1 + i - 1] == rest[i - 1]);
                    }
                }
            }
        }
    }
}

/// Without formatting flags, no run is written as its input with one line
/// feed less at the head.
proof fn lemma_no_line_feed_is_dropped(
    opts: FormatOptions,
    state: StateView,
    contents: Seq<Seq<char>>,
)
    requires
        is_plain(opts),
    ensures
        seq!['\n'] + formatted_files(opts, state, contents) != contents.flatten(),
    decreases contents.flatten().len() + contents.len(),
{
    let written = formatted_files(opts, state, contents);
    if contents.len() == 0 {
        assert((seq!['\n'] + written).len() > 0);
    } else {
        let first = contents.first();
        let others = contents.drop_first();
        let after_first = state_after_content(opts, state, first);
        lemma_first_file(opts, state, contents);
        if first.len() == 0 {
            assert(first + others.flatten() =~= others.flatten());
            assert(written =~= formatted_files(opts, after_first, others));
            lemma_no_line_feed_is_dropped(opts, after_first, others);
        } else if seq!['\n'] + written == contents.flatten() {
            assert((seq!['\n'] + written)[0] == '\n');
            assert(contents.flatten()[0] == first[0]);
            lemma_first_break_is_first(first);
            assert(first_break(first) == 0);
            let rest = first.skip(1);
            let next = state_after_lines(opts, state, seq![Seq::<char>::empty()]);
            lemma_first_plain_line(opts, state, first);
            assert(first.take(0) =~= Seq::<char>::empty());
            let shorter = seq![rest] + others;
            assert(shorter.first() == rest);
            assert(shorter.drop_first() =~= others);
            lemma_first_file(opts, next, shorter);
            assert(seq!['\n'] + formatted_files(opts, next, shorter) =~= (seq!['\n']
                + written).skip(1));
            assert(shorter.flatten() =~= contents.flatten().skip(1));
            assert(shorter.flatten().len() + 1 == contents.flatten().len());
            lemma_no_line_feed_is_dropped(opts, next, shorter);
        }
    }
}

/// Without formatting flags, the output is the input files one after the
/// other only if the lines of every file end with a bare line feed.
pub proof fn lemma_only_line_feed_ended_files_are_concatenated(
    opts: FormatOptions,
    state: StateView,
    contents: Seq<Seq<char>>,
)
    requires
        is_plain(opts),
        formatted_files(opts, state, contents) == contents.flatten(),
    ensures
        forall|i: int| 0 <= i < contents.len() ==> ends_lines_with_line_feed(#[trigger] contents[i]),
    decreases contents.len(),
{
    if contents.len() > 0 {
        let first = contents.first();
        let others = contents.drop_first();
        let after_first = state_after_content(opts, state, first);
        lemma_first_file(opts, state, contents);
        lemma_plain_content_followed(
            opts,
            state,
            first,
            formatted_files(opts, after_first, others),
            others.flatten(),
        );
        lemma_no_line_feed_is_dropped(opts, after_first, others);
        lemma_only_line_feed_ended_files_are_concatenated(opts, after_first, others);
        assert forall|i: int| 0 <= i < contents.len() implies ends_lines_with_line_feed(
            #[trigger] contents[i],
        ) by {
            if i > 0 {
                assert(contents[i] == others[i - 1]);
            }
        }
    }
}

/// Where `number_nonblank` is on, `number_all` changes nothing in what is
/// written for a line, nor in the state after it.
pub proof fn lemma_number_all_is_ignored(
    opts: FormatOptions,
    other: FormatOptions,
    state: StateView,
    contents: Seq<Seq<char>>,
)
    requires
        opts.number_nonblank,
        other == (FormatOptions { number_all: !opts.number_all, ..opts }),
    ensures
        formatted_files(opts, state, contents) == formatted_files(other, state, contents),
        state_after_files(opts, state, contents) == state_after_files(other, state, contents),
{
    lemma_files_are_their_lines(opts, state, contents);
    lemma_files_are_their_lines(other, state, contents);
    lemma_number_all_is_ignored_in_lines(opts, other, state, all_lines(contents));
}

/// Where `number_nonblank` is on, `number_all` changes nothing in what is
/// written for a sequence of lines.
pub proof fn lemma_number_all_is_ignored_in_lines(
    opts: FormatOptions,
    other: FormatOptions,
    state: StateView,
    lines: Seq<Seq<char>>,
)
    requires
        opts.number_nonblank,
        other == (FormatOptions { number_all: !opts.number_all, ..opts }),
    ensures
        formatted_lines(opts, state, lines) == formatted_lines(other, state, lines),
        state_after_lines(opts, state, lines) == state_after_lines(other, state, lines),
    decreases lines.len(),
{
    if lines.len() > 0 {
        lemma_number_all_is_ignored_in_lines(opts, other, state, lines.drop_last());
    }
}

/// Two invocations that differ in the flag `number` alone, with
/// `number_nonblank` given in both, come to the same result.
pub proof fn lemma_number_nonblank_overrides_number(
    first: CatArgs,
    second: CatArgs,
    results: Seq<ReadResult>,
)
    requires
        first.number_nonblank,
        second.number_nonblank,
        first.show_all == second.show_all,
        first.show_ends == second.show_ends,
        first.squeeze_blank == second.squeeze_blank,
        first.show_tabs == second.show_tabs,
        first.value@.len() == second.value@.len(),
    ensures
        first.format_options() == second.format_options(),
        first.output(results) == second.output(results),
{
}

/// Sequences with the same members, counted, have the same members.
proof fn lemma_member_of_both(first: Seq<ReadResult>, second: Seq<ReadResult>, k: int)
    requires
        first.to_multiset() == second.to_multiset(),
        0 <= k < second.len(),
    ensures
        first.contains(second[k]),
{
    first.to_multiset_ensures();
    second.to_multiset_ensures();
    assert(second.contains(second[k]));
    assert(second.to_multiset().count(second[k]) > 0);
    assert(first.to_multiset().count(second[k]) > 0);
}

/// Results that tag each position once stay such when they are reordered.
pub proof fn lemma_reordering_keeps_tags(
    first: Seq<ReadResult>,
    second: Seq<ReadResult>,
    start: int,
    end: int,
)
    requires
        first.to_multiset() == second.to_multiset(),
        tags_each_once(first, start, end),
    ensures
        tags_each_once(second, start, end),
{
    first.to_multiset_ensures();
    second.to_multiset_ensures();
    assert(first.no_duplicates()) by {
        assert forall|i: int, j: int|
            0 <= i < first.len() && 0 <= j < first.len() && i != j implies first[i]
            != first[j] by {
            if i < j {
                assert(first[i].index != first[j].index);
            } else {
                assert(first[j].index != first[i].index);
            }
        }
    }
    first.lemma_multiset_has_no_duplicates();
    second.lemma_multiset_has_no_duplicates_conv();
    assert forall|k: int| 0 <= k < second.len() implies start <= (
    #[trigger] second[k]).index < end by {
        lemma_member_of_both(first, second, k);
        let a = choose|a: int| 0 <= a < first.len() && first[a] == second[k];
        assert(start <= first[a].index < end);
    }
    assert forall|j: int, k: int| 0 <= j < k < second.len() implies (
    #[trigger] second[j]).index != (#[trigger] second[k]).index by {
        if second[j].index == second[k].index {
            lemma_member_of_both(first, second, j);
            lemma_member_of_both(first, second, k);
            let a = choose|a: int| 0 <= a < first.len() && first[a] == second[j];
            let b = choose|b: int| 0 <= b < first.len() && first[b] == second[k];
            if a < b {
                assert(first[a].index != first[b].index);
            } else if b < a {
                assert(first[b].index != first[a].index);
            }
            assert(second[j] == second[k]);
        }
    }
}

/// Reordered results hold the same result for each position.
pub proof fn lemma_reordering_keeps_results(
    first: Seq<ReadResult>,
    second: Seq<ReadResult>,
    start: int,
    end: int,
    pos: int,
)
    requires
        first.to_multiset() == second.to_multiset(),
        tags_each_once(first, start, end),
        start <= pos < end,
    ensures
        first[arrival_of(first, pos)] == second[arrival_of(second, pos)],
{
    lemma_reordering_keeps_tags(first, second, start, end);
    lemma_every_position_has_one_result(first, start, end, pos);
    lemma_every_position_has_one_result(second, start, end, pos);
    let found = second[arrival_of(second, pos)];
    lemma_member_of_both(first, second, arrival_of(second, pos));
    let a = choose|a: int| 0 <= a < first.len() && first[a] == found;
    assert(first[a].index == pos);
}

/// The first failure of a range depends only on which result each position
/// has.
proof fn lemma_same_results_same_failure(
    first: Seq<ReadResult>,
    second: Seq<ReadResult>,
    start: int,
    end: int,
)
    requires
        forall|pos: int|
            start <= pos < end ==> #[trigger] first[arrival_of(first, pos)] == second[arrival_of(
                second,
                pos,
            )],
    ensures
        first_failure(first, start, end) == first_failure(second, start, end),
    decreases end - start,
{
    if start < end {
        assert(first[arrival_of(first, start)] == second[arrival_of(second, start)]);
        assert(failure_at(first, start) == failure_at(second, start));
        lemma_same_results_same_failure(first, second, start + 1, end);
    }
}

/// The order in which the reads of a batch finish does not matter: results
/// that are handed over in another order come to the same texts, in the
/// order of the paths, or to the same error.
pub proof fn lemma_completion_order_is_irrelevant(
    first: Seq<ReadResult>,
    second: Seq<ReadResult>,
    start: int,
    end: int,
)
    requires
        first.to_multiset() == second.to_multiset(),
    ensures
        batch_texts(first, start, end) == batch_texts(second, start, end),
{
    if tags_each_once(first, start, end) {
        lemma_reordering_keeps_tags(first, second, start, end);
        assert forall|pos: int| start <= pos < end implies #[trigger] first[arrival_of(
            first,
            pos,
        )] == second[arrival_of(second, pos)] by {
            lemma_reordering_keeps_results(first, second, start, end, pos);
        }
        lemma_same_results_same_failure(first, second, start, end);
        assert(texts_in_order(first, start, end) =~= texts_in_order(second, start, end)) by {
            assert forall|i: int| 0 <= i < end - start implies #[trigger] texts_in_order(
                first,
                start,
                end,
            )[i] == texts_in_order(second, start, end)[i] by {
                assert(first[arrival_of(first, start + i)] == second[arrival_of(
                    second,
                    start + i,
                )]);
            }
        }
    } else if tags_each_once(second, start, end) {
        lemma_reordering_keeps_tags(second, first, start, end);
    }
}

/// The output of a run does not depend on the order in which the reads
/// finished: it follows the order of the paths.
pub proof fn lemma_output_follows_path_order(
    args: CatArgs,
    first: Seq<ReadResult>,
    second: Seq<ReadResult>,
)
    requires
        first.to_multiset() == second.to_multiset(),
    ensures
        args.output(first) == args.output(second),
{
    lemma_completion_order_is_irrelevant(first, second, 0, args.value@.len() as int);
}

} // verus!
