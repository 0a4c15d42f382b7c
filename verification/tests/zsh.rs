use shell_history_lens::{iter_zsh_extended, parse_zsh_extended, write_zsh_extended, HistoryEntry, ZshHistory};

struct Case {
    name: &'static str,
    input: &'static str,
    expected: Vec<HistoryEntry>,
}

fn entry(command: &str, timestamp: Option<i64>) -> HistoryEntry {
    HistoryEntry {
        command: command.to_string(),
        timestamp,
    }
}

fn drain(mut it: ZshHistory) -> Vec<HistoryEntry> {
    let mut out = Vec::new();
    while let Some(e) = it.next() {
        out.push(e);
    }
    out
}

#[test]
fn zsh_table_driven_cases() {
    let cases = vec![
        Case {
            name: "basic extended entry",
            input: ": 1690000000:0;ls -la\n",
            expected: vec![entry("ls -la", Some(1690000000))],
        },
        Case {
            name: "semicolon inside the command is kept intact",
            input: ": 1690000000:0;echo a; echo b\n",
            expected: vec![entry("echo a; echo b", Some(1690000000))],
        },
        Case {
            name: "plain line without extended prefix has no timestamp",
            input: "ls -la\n",
            expected: vec![entry("ls -la", None)],
        },
        Case {
            name: "multi-line command joins continuation lines",
            input: ": 1690000000:0;echo one\\\nand two\n",
            expected: vec![entry("echo one\nand two", Some(1690000000))],
        },
        Case {
            name: "empty command after the separator",
            input: ": 1690000000:0;\n",
            expected: vec![entry("", Some(1690000000))],
        },
        Case {
            name: "non-numeric timestamp falls back to a plain command",
            input: ": abc:0;ls\n",
            expected: vec![entry(": abc:0;ls", None)],
        },
        Case {
            name: "non-numeric elapsed field falls back to a plain command",
            input: ": 1690000000:xy;ls\n",
            expected: vec![entry(": 1690000000:xy;ls", None)],
        },
        Case {
            name: "crlf line endings are stripped",
            input: ": 1690000000:0;ls -la\r\n",
            expected: vec![entry("ls -la", Some(1690000000))],
        },
        Case {
            name: "blank plain line is skipped",
            input: "\n",
            expected: vec![],
        },
    ];

    for case in cases {
        let got = parse_zsh_extended(case.input);
        assert_eq!(got, case.expected, "case failed: {}", case.name);

        let got_from_iter = drain(iter_zsh_extended(case.input));
        assert_eq!(got_from_iter, case.expected, "iter case failed: {}", case.name);
    }
}

#[test]
fn zsh_signed_start_time_is_read() {
    assert_eq!(
        parse_zsh_extended(": -5:0;ls\n: +7:12;pwd\n"),
        vec![entry("ls", Some(-5)), entry("pwd", Some(7))]
    );
}

#[test]
fn zsh_missing_separator_is_a_plain_command() {
    assert_eq!(
        parse_zsh_extended(": 1690000000:0 ls\n: 1690000000\n: :0;x\n"),
        vec![
            entry(": 1690000000:0 ls", None),
            entry(": 1690000000", None),
            entry(": :0;x", None),
        ]
    );
}

#[test]
fn zsh_empty_elapsed_is_a_plain_command() {
    assert_eq!(
        parse_zsh_extended(": 1690000000:;ls\n"),
        vec![entry(": 1690000000:;ls", None)]
    );
}

#[test]
fn zsh_continuation_at_end_of_file_drops_the_backslash() {
    assert_eq!(
        parse_zsh_extended(": 1:0;echo a\\"),
        vec![entry("echo a", Some(1))]
    );
}

#[test]
fn zsh_three_line_command() {
    let input = ": 1:0;a\\\r\nb\\\nc\nls\n";
    assert_eq!(
        parse_zsh_extended(input),
        vec![entry("a\nb\nc", Some(1)), entry("ls", None)]
    );
}

#[test]
fn zsh_write_produces_the_expected_text() {
    let entries = vec![
        entry("echo one\nand two", Some(1690000000)),
        entry("ls", None),
        entry("echo a\\\nb", Some(-3)),
    ];
    assert_eq!(
        write_zsh_extended(&entries),
        ": 1690000000:0;echo one\\\nand two\nls\n: -3:0;echo a\\\\\nb\n"
    );
}

#[test]
fn zsh_write_then_parse_round_trips() {
    let entries = vec![
        entry("echo one\nand two", Some(1690000000)),
        entry("ls", None),
        entry("echo a\\\nb\n", Some(-3)),
        entry("", Some(0)),
        entry("a; b: c", Some(12)),
    ];
    assert_eq!(parse_zsh_extended(&write_zsh_extended(&entries)), entries);
}

#[test]
fn zsh_rewrite_of_parsed_history_is_stable() {
    let input = ": 1:0;a\\\nb\\\\\nc\n\nplain\r\n: x:0;y\n: 2:3;last\n";
    let once = parse_zsh_extended(input);
    assert_eq!(parse_zsh_extended(&write_zsh_extended(&once)), once);
}

#[test]
fn zsh_continuation_at_end_of_file_is_rewritten_with_its_backslash() {
    let once = parse_zsh_extended(": 1:0;a\\\\");
    assert_eq!(once, vec![entry("a\\", Some(1))]);
    assert_eq!(write_zsh_extended(&once), ": 1:0;a\\\\\n");
    assert_eq!(parse_zsh_extended(&write_zsh_extended(&once)), once);
}

#[test]
fn zsh_final_carriage_return_is_kept_by_a_backslash() {
    let entries = vec![entry("ls", Some(1)), entry("x\ny\r", Some(2))];
    assert_eq!(write_zsh_extended(&entries), ": 1:0;ls\n: 2:0;x\\\ny\r\\\n");
    assert_eq!(parse_zsh_extended(&write_zsh_extended(&entries)), entries);
}

#[test]
fn zsh_final_backslash_only_on_the_last_entry() {
    let entries = vec![entry("a\\", Some(1)), entry("b", Some(2))];
    assert_eq!(write_zsh_extended(&entries), ": 1:0;a\\\n: 2:0;b\n");
}
