use shell_history_lens::{iter_fish, parse_fish, write_fish, FishHistory, HistoryEntry};

struct Case {
    name: &'static str,
    input: &'static str,
    expected: Vec<HistoryEntry>,
}

fn entry(command: &str, timestamp: Option<i64>) -> HistoryEntry {
    HistoryEntry {
        command: command.to_string(),
        timestamp,
    }
}

fn drain(mut it: FishHistory) -> Vec<HistoryEntry> {
    let mut out = Vec::new();
    while let Some(e) = it.next() {
        out.push(e);
    }
    out
}

#[test]
fn fish_table_driven_cases() {
    let cases = vec![
        Case {
            name: "basic entry with timestamp",
            input: "- cmd: ls -la\n  when: 1690000000\n",
            expected: vec![entry("ls -la", Some(1690000000))],
        },
        Case {
            name: "entry with a paths block is still parsed correctly",
            input: "- cmd: cat foo.txt\n  when: 1690000000\n  paths:\n    - foo.txt\n",
            expected: vec![entry("cat foo.txt", Some(1690000000))],
        },
        Case {
            name: "escaped newline becomes a real newline",
            input: "- cmd: echo one\\nand two\n  when: 1690000000\n",
            expected: vec![entry("echo one\nand two", Some(1690000000))],
        },
        Case {
            name: "escaped backslash becomes a single backslash",
            input: "- cmd: echo a\\\\b\n  when: 1690000000\n",
            expected: vec![entry("echo a\\b", Some(1690000000))],
        },
        Case {
            name: "unrecognized escape sequence is kept literally",
            input: "- cmd: echo a\\qb\n  when: 1690000000\n",
            expected: vec![entry("echo a\\qb", Some(1690000000))],
        },
        Case {
            name: "cmd without a when line has no timestamp",
            input: "- cmd: ls -la\n",
            expected: vec![entry("ls -la", None)],
        },
        Case {
            name: "multiple entries in sequence",
            input: "- cmd: ls\n  when: 1690000000\n- cmd: pwd\n  when: 1690000001\n",
            expected: vec![
                entry("ls", Some(1690000000)),
                entry("pwd", Some(1690000001)),
            ],
        },
        Case {
            name: "lines outside an entry are ignored",
            input: "some stray header\n- cmd: ls\n  when: 1690000000\n",
            expected: vec![entry("ls", Some(1690000000))],
        },
        Case {
            name: "crlf line endings are stripped",
            input: "- cmd: ls -la\r\n  when: 1690000000\r\n",
            expected: vec![entry("ls -la", Some(1690000000))],
        },
        Case {
            name: "empty input produces no entries",
            input: "",
            expected: vec![],
        },
    ];

    for case in cases {
        let got = parse_fish(case.input);
        assert_eq!(got, case.expected, "case failed: {}", case.name);

        let got_from_iter: Vec<HistoryEntry> = drain(iter_fish(case.input));
        assert_eq!(got_from_iter, case.expected, "iter case failed: {}", case.name);
    }
}

#[test]
fn fish_iter_stops_after_the_requested_number_of_entries() {
    let input = "- cmd: ls\n  when: 1690000000\n- cmd: pwd\n  when: 1690000001\n- cmd: whoami\n  when: 1690000002\n";
    let mut it = iter_fish(input);
    let mut first_two: Vec<HistoryEntry> = Vec::new();
    for _ in 0..2 {
        if let Some(e) = it.next() {
            first_two.push(e);
        }
    }
    assert_eq!(
        first_two,
        vec![
            entry("ls", Some(1690000000)),
            entry("pwd", Some(1690000001)),
        ]
    );
}

#[test]
fn fish_when_with_spaces_and_bad_number() {
    assert_eq!(
        parse_fish("- cmd: a\n  when:  42 \t\n- cmd: b\n  when: soon\n"),
        vec![entry("a", Some(42)), entry("b", None)]
    );
}

#[test]
fn fish_last_when_line_wins() {
    assert_eq!(
        parse_fish("- cmd: a\n  when: 1\n  paths:\n    - x\n    - y\n  when: 2\nnoise\n- cmd: b\n"),
        vec![entry("a", Some(2)), entry("b", None)]
    );
}

#[test]
fn fish_trailing_backslash_is_kept() {
    assert_eq!(parse_fish("- cmd: echo \\\n"), vec![entry("echo \\", None)]);
}

#[test]
fn fish_write_produces_the_expected_text() {
    let entries = vec![
        entry("echo one\nand a\\b", Some(1690000000)),
        entry("ls", None),
    ];
    assert_eq!(
        write_fish(&entries),
        "- cmd: echo one\\nand a\\\\b\n  when: 1690000000\n- cmd: ls\n"
    );
}

#[test]
fn fish_write_then_parse_round_trips() {
    let entries = vec![
        entry("echo one\nand a\\b\\n", Some(1690000000)),
        entry("ls", None),
        entry("", Some(-1)),
        entry("  when: 3", None),
    ];
    assert_eq!(parse_fish(&write_fish(&entries)), entries);
}

#[test]
fn fish_rewrite_drops_paths_only() {
    let input = "- cmd: cat foo.txt\n  when: 1690000000\n  paths:\n    - foo.txt\n";
    let once = parse_fish(input);
    assert_eq!(parse_fish(&write_fish(&once)), once);
    assert_eq!(write_fish(&once), "- cmd: cat foo.txt\n  when: 1690000000\n");
}

#[test]
fn fish_one_entry_per_cmd_line() {
    let input = "x\n- cmd: a\n  paths:\n    - p\n- cmd: b\n  when: 1\n  when: z\ny\n- cmd: c\\\\d\n";
    assert_eq!(
        parse_fish(input),
        vec![entry("a", None), entry("b", None), entry("c\\d", None)]
    );
}
