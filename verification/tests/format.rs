use shell_history_lens::{
    detect, iter_auto, parse_auto, parse_bash, write_bash, write_fish, write_zsh_extended,
    AutoHistory, HistoryEntry, HistoryFormat,
};

struct Case {
    name: &'static str,
    input: &'static str,
    expected: HistoryFormat,
}

fn drain(mut it: AutoHistory) -> Vec<HistoryEntry> {
    let mut out = Vec::new();
    while let Some(e) = it.next() {
        out.push(e);
    }
    out
}

#[test]
fn table_driven_detect_cases() {
    let cases = vec![
        Case {
            name: "plain bash history",
            input: "ls -la\npwd\n",
            expected: HistoryFormat::Bash,
        },
        Case {
            name: "bash history with HISTTIMESTAMP",
            input: "#1690000000\nls -la\n",
            expected: HistoryFormat::Bash,
        },
        Case {
            name: "zsh extended history",
            input: ": 1690000000:0;ls -la\n",
            expected: HistoryFormat::ZshExtended,
        },
        Case {
            name: "fish history",
            input: "- cmd: ls -la\n  when: 1690000000\n",
            expected: HistoryFormat::Fish,
        },
        Case {
            name: "leading blank lines are skipped before detecting",
            input: "\n\n- cmd: ls -la\n  when: 1690000000\n",
            expected: HistoryFormat::Fish,
        },
        Case {
            name: "empty input falls back to bash",
            input: "",
            expected: HistoryFormat::Bash,
        },
        Case {
            name: "all-blank input falls back to bash",
            input: "\n   \n",
            expected: HistoryFormat::Bash,
        },
    ];

    for case in cases {
        let got = detect(case.input);
        assert_eq!(got, case.expected, "case failed: {}", case.name);
    }
}

#[test]
fn parse_auto_dispatches_to_the_detected_parser() {
    let fish_history = "- cmd: ls -la\n  when: 1690000000\n";
    assert_eq!(
        parse_auto(fish_history),
        vec![HistoryEntry {
            command: "ls -la".to_string(),
            timestamp: Some(1690000000),
        }]
    );

    let zsh_history = ": 1690000000:0;echo a; echo b\n";
    assert_eq!(
        parse_auto(zsh_history),
        vec![HistoryEntry {
            command: "echo a; echo b".to_string(),
            timestamp: Some(1690000000),
        }]
    );
}

#[test]
fn iter_auto_dispatches_to_the_detected_parser() {
    let fish_history = "- cmd: ls -la\n  when: 1690000000\n";
    let got: Vec<HistoryEntry> = drain(iter_auto(fish_history));
    assert_eq!(got, parse_auto(fish_history));

    let zsh_history = ": 1690000000:0;echo a; echo b\n";
    let got: Vec<HistoryEntry> = drain(iter_auto(zsh_history));
    assert_eq!(got, parse_auto(zsh_history));

    let bash_history = "#1690000000\nls -la\n";
    let got: Vec<HistoryEntry> = drain(iter_auto(bash_history));
    assert_eq!(got, parse_auto(bash_history));
}

#[test]
fn detect_looks_only_at_the_first_nonblank_line() {
    assert_eq!(detect("ls\n- cmd: x\n"), HistoryFormat::Bash);
    assert_eq!(detect(" \r\n: 1:0;x\n- cmd: y\n"), HistoryFormat::ZshExtended);
    assert_eq!(detect(": 1:0 x\n"), HistoryFormat::Bash);
}

#[test]
fn parse_auto_falls_back_to_bash() {
    assert_eq!(
        parse_auto("#5\nls\n"),
        vec![HistoryEntry {
            command: "ls".to_string(),
            timestamp: Some(5),
        }]
    );
}

#[test]
fn readme_round_trip_example() {
    let bash_history = "#1690000000\ngit status\nls -la\n";
    let entries = parse_bash(bash_history);
    let rewritten = write_bash(&entries);
    assert_eq!(parse_bash(&rewritten), entries);
    let mut it = iter_auto(bash_history);
    let mut first_git = None;
    while let Some(e) = it.next() {
        if e.command.starts_with("git") {
            first_git = Some(e);
            break;
        }
    }
    assert_eq!(
        first_git,
        Some(HistoryEntry {
            command: "git status".to_string(),
            timestamp: Some(1690000000),
        })
    );
}

fn entry(command: &str, timestamp: Option<i64>) -> HistoryEntry {
    HistoryEntry {
        command: command.to_string(),
        timestamp,
    }
}

#[test]
fn parse_auto_reads_back_what_each_writer_wrote() {
    let fish_entries = vec![entry("ls\nx", None), entry("pwd", Some(3))];
    assert_eq!(detect(&write_fish(&fish_entries)), HistoryFormat::Fish);
    assert_eq!(parse_auto(&write_fish(&fish_entries)), fish_entries);

    let zsh_entries = vec![entry("echo a\nb", Some(1)), entry("ls", None)];
    assert_eq!(detect(&write_zsh_extended(&zsh_entries)), HistoryFormat::ZshExtended);
    assert_eq!(parse_auto(&write_zsh_extended(&zsh_entries)), zsh_entries);

    let bash_entries = vec![entry("ls", Some(1)), entry("pwd", None)];
    assert_eq!(detect(&write_bash(&bash_entries)), HistoryFormat::Bash);
    assert_eq!(parse_auto(&write_bash(&bash_entries)), bash_entries);
}
