use cat::{format_content, format_line, split_lines, FormatOptions, FormatterState, LineCounter};

fn options(
    number_all: bool,
    number_nonblank: bool,
    show_ends: bool,
    squeeze_blank: bool,
    show_tabs: bool,
) -> FormatOptions {
    FormatOptions { number_all, number_nonblank, show_ends, squeeze_blank, show_tabs }
}

fn chars(text: &str) -> Vec<char> {
    text.chars().collect()
}

fn formatted(opts: &FormatOptions, content: &str) -> String {
    let mut state = FormatterState::new();
    let mut out = String::new();
    format_content(content, opts, &mut state, &mut out);
    out
}

fn lines(content: &str) -> Vec<String> {
    split_lines(content).iter().map(|line| line.iter().collect::<String>()).collect()
}

#[test]
fn plain_content_is_copied() {
    assert_eq!(formatted(&FormatOptions::plain(), "foo\nbar\n"), "foo\nbar\n");
    assert_eq!(formatted(&FormatOptions::plain(), "\n\n\n"), "\n\n\n");
    assert_eq!(formatted(&FormatOptions::plain(), ""), "");
}

#[test]
fn plain_options_have_every_flag_off() {
    assert_eq!(FormatOptions::plain(), options(false, false, false, false, false));
}

#[test]
fn unended_last_line_gets_a_line_feed() {
    assert_eq!(formatted(&FormatOptions::plain(), "foo"), "foo\n");
    assert_eq!(formatted(&FormatOptions::plain(), "foo\nbar"), "foo\nbar\n");
}

#[test]
fn carriage_return_before_line_feed_is_dropped() {
    assert_eq!(formatted(&FormatOptions::plain(), "foo\r\nbar\r\n"), "foo\nbar\n");
    assert_eq!(formatted(&FormatOptions::plain(), "a\rb\n"), "a\rb\n");
    assert_eq!(formatted(&FormatOptions::plain(), "a\r\r\n"), "a\r\n");
    assert_eq!(formatted(&FormatOptions::plain(), "a\r"), "a\r\n");
}

#[test]
fn split_lines_ends_lines_at_line_feeds() {
    assert_eq!(lines(""), Vec::<String>::new());
    assert_eq!(lines("\n"), vec![""]);
    assert_eq!(lines("foo"), vec!["foo"]);
    assert_eq!(lines("foo\n"), vec!["foo"]);
    assert_eq!(lines("foo\n\nbar\n"), vec!["foo", "", "bar"]);
    assert_eq!(lines("foo\nbar"), vec!["foo", "bar"]);
    assert_eq!(lines("\n\n"), vec!["", ""]);
}

#[test]
fn split_lines_takes_carriage_return_with_the_line_feed() {
    assert_eq!(lines("foo\r\nbar"), vec!["foo", "bar"]);
    assert_eq!(lines("\r\n"), vec![""]);
    assert_eq!(lines("foo\r"), vec!["foo\r"]);
    assert_eq!(lines("a\rb\n"), vec!["a\rb"]);
    assert_eq!(lines("a\r\r\n"), vec!["a\r"]);
}

#[test]
fn split_lines_keeps_other_characters() {
    assert_eq!(lines("héllo wörld\n日本語\n"), vec!["héllo wörld", "日本語"]);
}

#[test]
fn show_tabs_writes_caret_i() {
    let opts = options(false, false, false, false, true);
    let mut state = FormatterState::new();
    let mut out = String::new();
    format_line(&chars("a\tb"), &opts, &mut state, &mut out);
    assert_eq!(out, "a^Ib\n");
    assert_eq!(formatted(&opts, "\t\ta\t\n"), "^I^Ia^I\n");
}

#[test]
fn tabs_are_kept_without_show_tabs() {
    assert_eq!(formatted(&FormatOptions::plain(), "a\tb\n"), "a\tb\n");
}

#[test]
fn show_ends_puts_a_dollar_before_the_line_feed() {
    let opts = options(false, false, true, false, false);
    assert_eq!(formatted(&opts, "foo\n\nbar"), "foo$\n$\nbar$\n");
}

#[test]
fn number_all_numbers_every_line() {
    let opts = options(true, false, false, false, false);
    assert_eq!(formatted(&opts, "foo\n\nbar\n"), "     1\tfoo\n     2\t\n     3\tbar\n");
}

#[test]
fn number_nonblank_gives_empty_lines_a_blank_field() {
    let opts = options(false, true, false, false, false);
    assert_eq!(formatted(&opts, "foo\n\nbar\n"), "     1\tfoo\n      \t\n     2\tbar\n");
}

#[test]
fn number_nonblank_overrides_number_all() {
    let both = options(true, true, false, false, false);
    let only = options(false, true, false, false, false);
    let content = "foo\n\n\nbar\n\nbaz";
    assert_eq!(formatted(&both, content), formatted(&only, content));
    assert_eq!(formatted(&both, content), "     1\tfoo\n      \t\n      \t\n     2\tbar\n      \t\n     3\tbaz\n");
}

#[test]
fn resolve_forces_number_all_off() {
    let both = options(true, true, true, false, true);
    assert_eq!(both.resolve(), options(false, true, true, false, true));
    let all = options(true, false, false, true, false);
    assert_eq!(all.resolve(), all);
}

#[test]
fn squeeze_blank_writes_one_empty_line_per_run() {
    let opts = options(false, false, false, true, false);
    assert_eq!(formatted(&opts, "a\n\n\n\nb\n\nc\n\n\n"), "a\n\nb\n\nc\n\n");
    assert_eq!(formatted(&opts, "\n\n\na\n"), "\na\n");
    assert_eq!(formatted(&opts, "a\nb\n"), "a\nb\n");
}

#[test]
fn squeezed_lines_are_not_counted() {
    let opts = options(true, false, false, true, false);
    assert_eq!(formatted(&opts, "a\n\n\n\nb\n"), "     1\ta\n     2\t\n     3\tb\n");
}

#[test]
fn all_flags_together() {
    let opts = options(true, false, true, true, true);
    assert_eq!(formatted(&opts, "a\tb\n\n\nc"), "     1\ta^Ib$\n     2\t$\n     3\tc$\n");
}

#[test]
fn state_is_handed_from_content_to_content() {
    let opts = options(true, false, false, true, false);
    let mut state = FormatterState::new();
    let mut out = String::new();
    assert_eq!(state.line_count(), Some(0));
    assert!(!state.previous_line_was_blank());
    format_content("a\n\n", &opts, &mut state, &mut out);
    assert_eq!(state.line_count(), Some(2));
    assert!(state.previous_line_was_blank());
    format_content("\nb\n", &opts, &mut state, &mut out);
    assert_eq!(state.line_count(), Some(3));
    assert!(!state.previous_line_was_blank());
    assert_eq!(out, "     1\ta\n     2\t\n     3\tb\n");
}

#[test]
fn suppressed_line_leaves_the_state_alone() {
    let opts = options(true, false, false, true, false);
    let mut state = FormatterState::new();
    let mut out = String::new();
    format_line(&[], &opts, &mut state, &mut out);
    assert_eq!(out, "     1\t\n");
    format_line(&[], &opts, &mut state, &mut out);
    assert_eq!(out, "     1\t\n");
    assert_eq!(state.line_count(), Some(1));
    assert!(state.previous_line_was_blank());
}

#[test]
fn line_count_never_goes_down() {
    let opts = options(false, true, false, true, false);
    let mut state = FormatterState::new();
    let mut out = String::new();
    let mut last = 0;
    for content in ["a\n\n", "", "\n\n", "b\nc\n", "\n"] {
        format_content(content, &opts, &mut state, &mut out);
        let now = state.line_count().unwrap();
        assert!(now >= last);
        last = now;
    }
    assert_eq!(last, 3);
}

#[test]
fn numbers_wider_than_the_field_are_not_cut() {
    let opts = options(true, false, false, false, false);
    let mut state = FormatterState::new();
    let mut out = String::new();
    let line = chars("x");
    for _ in 0..999_998 {
        out.clear();
        format_line(&line, &opts, &mut state, &mut out);
    }
    assert_eq!(out, "999998\tx\n");
    out.clear();
    format_line(&line, &opts, &mut state, &mut out);
    format_line(&line, &opts, &mut state, &mut out);
    format_line(&line, &opts, &mut state, &mut out);
    assert_eq!(out, "999999\tx\n1000000\tx\n1000001\tx\n");
    assert_eq!(state.line_count(), Some(1_000_001));
}

#[test]
fn counter_counts_in_decimal() {
    let mut counter = LineCounter::new();
    assert_eq!(counter.value(), Some(0));
    let mut out = String::new();
    counter.write_right_aligned(6, &mut out);
    assert_eq!(out, "     0");
    for _ in 0..9 {
        counter.increment();
    }
    out.clear();
    counter.write_right_aligned(6, &mut out);
    assert_eq!(out, "     9");
    counter.increment();
    out.clear();
    counter.write_right_aligned(6, &mut out);
    assert_eq!(out, "    10");
    for _ in 10..1099 {
        counter.increment();
    }
    out.clear();
    counter.write_right_aligned(0, &mut out);
    assert_eq!(out, "1099");
    counter.increment();
    out.clear();
    counter.write_right_aligned(4, &mut out);
    assert_eq!(out, "1100");
    out.clear();
    counter.write_right_aligned(3, &mut out);
    assert_eq!(out, "1100");
    assert_eq!(counter.value(), Some(1100));
}

#[test]
fn counter_appends_to_what_is_there() {
    let mut counter = LineCounter::new();
    counter.increment();
    let mut out = String::from("ab");
    counter.write_right_aligned(3, &mut out);
    assert_eq!(out, "ab  1");
}
