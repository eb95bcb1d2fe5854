use cat::{
    arrival_order, concurrency_bound, drain_batch, CatArgs, CatError, Coordinator,
    FormatOptions, FormatterState, Progress, ReadFailure, ReadResult,
};

fn args(flags: &str, paths: usize) -> CatArgs {
    CatArgs {
        show_all: flags.contains('A'),
        number_nonblank: flags.contains('b'),
        number: flags.contains('n'),
        show_ends: flags.contains('e'),
        squeeze_blank: flags.contains('s'),
        show_tabs: flags.contains('t'),
        value: (0..paths).map(|i| format!("file{}.txt", i)).collect(),
    }
}

fn text(index: usize, content: &str) -> ReadResult {
    ReadResult { index, outcome: Ok(String::from(content)) }
}

fn unreadable(index: usize, reason: &str) -> ReadResult {
    ReadResult { index, outcome: Err(ReadFailure::Unreadable(String::from(reason))) }
}

fn pending(progress: Progress) -> Coordinator {
    match progress {
        Progress::Pending(coordinator) => coordinator,
        Progress::Finished(result) => panic!("the run is over: {:?}", result),
    }
}

fn finished(progress: Progress) -> Result<String, CatError> {
    match progress {
        Progress::Finished(result) => result,
        Progress::Pending(_) => panic!("the run is not over"),
    }
}

#[test]
fn two_files_squeezed_and_numbered() {
    let results = vec![text(0, "foo\n\nbar\n"), text(1, "\nbaz\n")];
    assert_eq!(
        args("sn", 2).exec(results),
        Ok(String::from("     1\tfoo\n     2\t\n     3\tbar\n     4\t\n     5\tbaz\n"))
    );
}

#[test]
fn blank_run_across_a_file_boundary_is_squeezed() {
    let results = vec![text(0, "foo\n\n"), text(1, "\n\nbar\n")];
    assert_eq!(
        args("sn", 2).exec(results),
        Ok(String::from("     1\tfoo\n     2\t\n     3\tbar\n"))
    );
    let results = vec![text(0, "foo\n\n"), text(1, ""), text(2, "\nbar\n")];
    assert_eq!(args("s", 3).exec(results), Ok(String::from("foo\n\nbar\n")));
}

#[test]
fn unreadable_path_fails_the_run() {
    let results = vec![text(0, "foo\n"), unreadable(1, "No such file or directory"), text(2, "bar\n")];
    assert_eq!(
        args("", 3).exec(results),
        Err(CatError::Read { index: 1, reason: String::from("No such file or directory") })
    );
}

#[test]
fn first_failure_by_position_is_reported() {
    let results = vec![
        unreadable(2, "later"),
        ReadResult { index: 1, outcome: Err(ReadFailure::InvalidEncoding) },
        text(0, "foo\n"),
    ];
    assert_eq!(args("", 3).exec(results), Err(CatError::Encoding { index: 1 }));
}

#[test]
fn completion_order_does_not_change_the_output() {
    let in_order = vec![text(0, "a\n"), text(1, "b\n"), text(2, "c\n")];
    let reversed = vec![text(2, "c\n"), text(1, "b\n"), text(0, "a\n")];
    let mixed = vec![text(1, "b\n"), text(2, "c\n"), text(0, "a\n")];
    let expected = Ok(String::from("     1\ta\n     2\tb\n     3\tc\n"));
    assert_eq!(args("n", 3).exec(in_order), expected);
    assert_eq!(args("n", 3).exec(reversed), expected);
    assert_eq!(args("n", 3).exec(mixed), expected);
}

#[test]
fn no_flags_concatenate_the_files() {
    let results = vec![text(1, "second\n\n"), text(0, "first\n"), text(2, "\tthird\n")];
    assert_eq!(args("", 3).exec(results), Ok(String::from("first\nsecond\n\n\tthird\n")));
}

#[test]
fn no_files_give_empty_output() {
    assert_eq!(args("n", 0).exec(Vec::new()), Ok(String::new()));
}

#[test]
fn number_flag_is_ignored_beside_number_nonblank() {
    let with = args("bn", 2).exec(vec![text(0, "a\n\n"), text(1, "b\n")]);
    let without = args("b", 2).exec(vec![text(0, "a\n\n"), text(1, "b\n")]);
    assert_eq!(with, without);
    assert_eq!(with, Ok(String::from("     1\ta\n      \t\n     2\tb\n")));
}

#[test]
fn options_resolve_the_flags() {
    let resolved = args("bn", 0).options();
    assert!(!resolved.number_all);
    assert!(resolved.number_nonblank);
    assert_eq!(
        args("n", 0).options(),
        FormatOptions {
            number_all: true,
            number_nonblank: false,
            show_ends: false,
            squeeze_blank: false,
            show_tabs: false
        }
    );
    assert_eq!(
        args("A", 0).options(),
        FormatOptions {
            number_all: false,
            number_nonblank: false,
            show_ends: true,
            squeeze_blank: false,
            show_tabs: true
        }
    );
    assert_eq!(
        args("est", 0).options(),
        FormatOptions {
            number_all: false,
            number_nonblank: false,
            show_ends: true,
            squeeze_blank: true,
            show_tabs: true
        }
    );
}

#[test]
fn show_all_shows_ends_and_tabs() {
    assert_eq!(args("A", 1).exec(vec![text(0, "a\tb\n")]), Ok(String::from("a^Ib$\n")));
}

#[test]
fn results_that_are_not_those_of_the_paths_are_refused() {
    assert_eq!(args("", 2).exec(vec![text(0, "a\n")]), Err(CatError::Concurrency));
    assert_eq!(
        args("", 2).exec(vec![text(0, "a\n"), text(0, "b\n")]),
        Err(CatError::Concurrency)
    );
    assert_eq!(
        args("", 2).exec(vec![text(0, "a\n"), text(2, "b\n")]),
        Err(CatError::Concurrency)
    );
    assert_eq!(
        args("", 1).exec(vec![text(0, "a\n"), text(1, "b\n")]),
        Err(CatError::Concurrency)
    );
    assert_eq!(
        args("", 2).exec(vec![unreadable(0, "gone"), unreadable(0, "gone")]),
        Err(CatError::Concurrency)
    );
}

#[test]
fn concurrency_bound_is_four_per_thread_less_one() {
    assert_eq!(concurrency_bound(0), 1);
    assert_eq!(concurrency_bound(1), 3);
    assert_eq!(concurrency_bound(2), 7);
    assert_eq!(concurrency_bound(8), 31);
}

#[test]
fn arrival_order_lists_where_each_position_stands() {
    let results = vec![text(12, "c"), text(10, "a"), text(11, "b")];
    assert_eq!(arrival_order(&results, 10, 13), Some(vec![1, 2, 0]));
    assert_eq!(arrival_order(&results, 10, 12), None);
    assert_eq!(arrival_order(&results, 11, 14), None);
    assert_eq!(arrival_order(&results, 13, 10), None);
    assert_eq!(arrival_order(&Vec::new(), 4, 4), Some(Vec::new()));
    let twice = vec![text(0, "a"), text(1, "b"), text(1, "c")];
    assert_eq!(arrival_order(&twice, 0, 3), None);
}

#[test]
fn drain_batch_appends_by_position() {
    let opts = FormatOptions::plain();
    let mut state = FormatterState::new();
    let mut out = String::from(">");
    let results = vec![text(5, "b\n"), text(4, "a\n")];
    assert_eq!(drain_batch(&results, 4, 6, &opts, &mut state, &mut out), Ok(()));
    assert_eq!(out, ">a\nb\n");
}

#[test]
fn drain_batch_leaves_output_alone_on_failure() {
    let opts = FormatOptions { number_all: true, ..FormatOptions::plain() };
    let mut state = FormatterState::new();
    let mut out = String::from(">");
    let results = vec![text(0, "a\n"), unreadable(1, "denied")];
    assert_eq!(
        drain_batch(&results, 0, 2, &opts, &mut state, &mut out),
        Err(CatError::Read { index: 1, reason: String::from("denied") })
    );
    assert_eq!(out, ">");
    assert_eq!(state.line_count(), Some(0));
    assert_eq!(
        drain_batch(&results, 0, 3, &opts, &mut state, &mut out),
        Err(CatError::Concurrency)
    );
    assert_eq!(out, ">");
}

#[test]
fn coordinator_asks_for_batches_within_the_bound() {
    let opts = FormatOptions { number_all: true, squeeze_blank: true, ..FormatOptions::plain() };
    let coordinator = pending(Coordinator::start(opts, 5, 2));
    assert_eq!(coordinator.batch(), (0, 2));
    let coordinator = pending(coordinator.absorb(vec![text(1, "\n"), text(0, "a\n")]));
    assert_eq!(coordinator.batch(), (2, 4));
    let coordinator = pending(coordinator.absorb(vec![text(2, "\n\n"), text(3, "b\n")]));
    assert_eq!(coordinator.batch(), (4, 5));
    let result = finished(coordinator.absorb(vec![text(4, "c")]));
    assert_eq!(result, Ok(String::from("     1\ta\n     2\t\n     3\tb\n     4\tc\n")));
}

#[test]
fn coordinator_gives_what_exec_gives() {
    let contents = ["a\n\n", "\n", "\nb\n", "", "c\n\n", "\n\nd", "e\n"];
    let all: Vec<ReadResult> = contents.iter().enumerate().map(|(i, c)| text(i, c)).collect();
    let expected = args("sn", contents.len()).exec(all);
    for bound in 1..9 {
        let mut progress = Coordinator::start(args("sn", 0).options(), contents.len(), bound);
        let mut rounds = 0;
        let result = loop {
            match progress {
                Progress::Finished(result) => break result,
                Progress::Pending(coordinator) => {
                    let (start, end) = coordinator.batch();
                    assert!(start < end && end - start <= bound && end <= contents.len());
                    let batch = (start..end).rev().map(|i| text(i, contents[i])).collect();
                    progress = coordinator.absorb(batch);
                    rounds += 1;
                }
            }
        };
        assert_eq!(result, expected);
        assert_eq!(rounds, (contents.len() + bound - 1) / bound);
    }
}

#[test]
fn coordinator_without_files_is_finished() {
    assert_eq!(finished(Coordinator::start(FormatOptions::plain(), 0, 3)), Ok(String::new()));
}

#[test]
fn coordinator_stops_at_the_first_failed_batch() {
    let coordinator = pending(Coordinator::start(FormatOptions::plain(), 4, 2));
    let coordinator = pending(coordinator.absorb(vec![text(0, "a\n"), text(1, "b\n")]));
    let result = finished(coordinator.absorb(vec![unreadable(3, "late"), unreadable(2, "early")]));
    assert_eq!(result, Err(CatError::Read { index: 2, reason: String::from("early") }));
}

#[test]
fn coordinator_refuses_results_of_another_batch() {
    let coordinator = pending(Coordinator::start(FormatOptions::plain(), 4, 2));
    let result = finished(coordinator.absorb(vec![text(2, "a\n"), text(3, "b\n")]));
    assert_eq!(result, Err(CatError::Concurrency));
    let coordinator = pending(Coordinator::start(FormatOptions::plain(), 4, 2));
    assert_eq!(finished(coordinator.absorb(vec![text(0, "a\n")])), Err(CatError::Concurrency));
}

#[test]
fn bytes_are_decoded_as_utf8() {
    let result = ReadResult::from_bytes(3, vec![0x68, 0xc3, 0xa9, 0x0a, 0xe6, 0x97, 0xa5]);
    assert_eq!(result, text(3, "hé\n日"));
    assert_eq!(ReadResult::from_bytes(0, Vec::new()), text(0, ""));
}

#[test]
fn invalid_bytes_are_an_encoding_failure() {
    let result = ReadResult::from_bytes(7, vec![0x61, 0xff, 0x62]);
    assert_eq!(result, ReadResult { index: 7, outcome: Err(ReadFailure::InvalidEncoding) });
    let cut = ReadResult::from_bytes(1, vec![0xc3]);
    assert_eq!(cut.outcome, Err(ReadFailure::InvalidEncoding));
    assert_eq!(args("", 8).exec(vec![
        text(0, ""), text(1, ""), text(2, ""), text(3, ""), text(4, ""), text(5, ""), text(6, ""),
        result,
    ]), Err(CatError::Encoding { index: 7 }));
}
