use shell_history_lens::{iter_bash, parse_bash, write_bash, BashHistory, HistoryEntry};

struct Case {
    name: &'static str,
    input: &'static str,
    expected: Vec<HistoryEntry>,
}

fn entry(command: &str, timestamp: Option<i64>) -> HistoryEntry {
    HistoryEntry {
        command: command.to_string(),
        timestamp,
    }
}

fn drain(mut it: BashHistory) -> Vec<HistoryEntry> {
    let mut out = Vec::new();
    while let Some(e) = it.next() {
        out.push(e);
    }
    out
}

#[test]
fn bash_table_driven_cases() {
    let cases = vec![
        Case {
            name: "plain command, no timestamp",
            input: "ls -la\n",
            expected: vec![entry("ls -la", None)],
        },
        Case {
            name: "timestamp comment applies to the next command only",
            input: "#1690000000\nls -la\npwd\n",
            expected: vec![entry("ls -la", Some(1690000000)), entry("pwd", None)],
        },
        Case {
            name: "non-numeric comment is a real command, not a timestamp",
            input: "# a note to self\n",
            expected: vec![entry("# a note to self", None)],
        },
        Case {
            name: "blank lines are skipped",
            input: "ls\n\n\npwd\n",
            expected: vec![entry("ls", None), entry("pwd", None)],
        },
        Case {
            name: "whitespace-only line is skipped",
            input: "ls\n   \npwd\n",
            expected: vec![entry("ls", None), entry("pwd", None)],
        },
        Case {
            name: "dangling timestamp at end of file is dropped",
            input: "ls\n#1690000000\n",
            expected: vec![entry("ls", None)],
        },
        Case {
            name: "crlf line endings are stripped",
            input: "ls -la\r\npwd\r\n",
            expected: vec![entry("ls -la", None), entry("pwd", None)],
        },
        Case {
            name: "empty input produces no entries",
            input: "",
            expected: vec![],
        },
    ];

    for case in cases {
        let got = parse_bash(case.input);
        assert_eq!(got, case.expected, "case failed: {}", case.name);

        let got_from_iter: Vec<HistoryEntry> = drain(iter_bash(case.input));
        assert_eq!(got_from_iter, case.expected, "iter case failed: {}", case.name);
    }
}

#[test]
fn bash_iter_stops_after_the_requested_number_of_entries() {
    let input = "#1690000000\nls -la\npwd\nwhoami\n";
    let mut it = iter_bash(input);
    let mut first_two: Vec<HistoryEntry> = Vec::new();
    for _ in 0..2 {
        if let Some(e) = it.next() {
            first_two.push(e);
        }
    }
    assert_eq!(
        first_two,
        vec![entry("ls -la", Some(1690000000)), entry("pwd", None)]
    );
}

#[test]
fn write_produces_the_expected_text() {
    let entries = vec![
        entry("ls -la", Some(1690000000)),
        entry("pwd", None),
        entry("whoami", Some(1690000001)),
    ];
    assert_eq!(
        write_bash(&entries),
        "#1690000000\nls -la\npwd\n#1690000001\nwhoami\n"
    );
}

#[test]
fn write_then_parse_round_trips() {
    let cases: Vec<Vec<HistoryEntry>> = vec![
        vec![entry("ls -la", Some(1690000000)), entry("pwd", None)],
        vec![entry("git status", None)],
        vec![],
    ];

    for entries in cases {
        assert_eq!(parse_bash(&write_bash(&entries)), entries);
    }
}

#[test]
fn bash_timestamp_that_overflows_is_a_command() {
    let input = "#99999999999999999999\nls\n";
    assert_eq!(
        parse_bash(input),
        vec![entry("#99999999999999999999", None), entry("ls", None)]
    );
}

#[test]
fn bash_largest_timestamp_is_read() {
    let input = "#9223372036854775807\nls\n";
    assert_eq!(parse_bash(input), vec![entry("ls", Some(i64::MAX))]);
}

#[test]
fn bash_signed_comment_is_a_command() {
    assert_eq!(parse_bash("#+5\nls\n"), vec![entry("#+5", None), entry("ls", None)]);
    assert_eq!(parse_bash("#\nls\n"), vec![entry("#", None), entry("ls", None)]);
}

#[test]
fn bash_timestamp_survives_blank_lines() {
    let input = "#1690000000\n\n  \t\nls\n";
    assert_eq!(parse_bash(input), vec![entry("ls", Some(1690000000))]);
}

#[test]
fn bash_unicode_whitespace_line_is_skipped() {
    let input = "ls\n\u{3000}\u{a0}\npwd";
    assert_eq!(parse_bash(input), vec![entry("ls", None), entry("pwd", None)]);
}

#[test]
fn bash_inner_carriage_return_is_kept() {
    assert_eq!(parse_bash("a\rb\r\r\n"), vec![entry("a\rb", None)]);
}

#[test]
fn bash_negative_timestamp_is_written_with_a_sign() {
    let entries = vec![entry("ls", Some(-5)), entry("pwd", Some(0))];
    assert_eq!(write_bash(&entries), "#-5\nls\n#0\npwd\n");
}

#[test]
fn bash_rewrite_of_parsed_history_is_stable() {
    let input = "#12\nls\n\r\n# note\n#x\n#7\n\n#8\npwd\r\n#9";
    let once = parse_bash(input);
    assert_eq!(parse_bash(&write_bash(&once)), once);
}

#[test]
fn bash_iter_after_end_keeps_returning_none() {
    let mut it = iter_bash("ls\n");
    assert_eq!(it.next(), Some(entry("ls", None)));
    assert_eq!(it.next(), None);
    assert_eq!(it.next(), None);
}
