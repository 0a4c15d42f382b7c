//! Telling the dialects apart, and parsing whichever one a file is in.

use vstd::prelude::*;
use crate::bash::{
    self, bash_text, bash_writable, lemma_bash_round_trip, spec_parse_bash,
    spec_write_bash, BashHistory,
};
use crate::entry::{
    entries_view, lemma_concat_texts_first, reader_step, EntryView, HistoryEntry,
};
use crate::fish::{
    self, cmd_prefix, escape, fish_text, fish_writable, lemma_escape_shape, lemma_fish_round_trip,
    spec_parse_fish, spec_write_fish, FishHistory,
};
use crate::num::{i64_text, lemma_i64_text_chars};
use crate::text::{
    blank, has_prefix, is_blank, lemma_lines_cons, lines_of, no_newline, strip_cr, trim_cr,
    LineCursor,
};
use crate::zsh::{
    self, extended_prefix, lemma_zsh_round_trip, looks_like_extended_prefix,
    spec_parse_zsh, spec_write_zsh, zsh_entries, zsh_history_writable, ZshHistory,
};

verus! {

/// Which shell wrote a history file, as far as [`detect`] can tell.
#[derive(Debug, Clone, Copy, PartialEq, Eq, Structural)]
pub enum HistoryFormat {
    /// Plain or `HISTTIMESTAMP` bash history, and anything that doesn't
    /// match the other two dialects (including plain zsh history, which is
    /// byte-for-byte the same as plain bash history).
    Bash,
    ZshExtended,
    Fish,
}

/// The dialect that `lines` are in, judged by their first nonblank line.
pub open spec fn detect_lines(lines: Seq<Seq<char>>) -> HistoryFormat
    decreases lines.len(),
{
    if lines.len() == 0 {
        HistoryFormat::Bash
    } else {
        let line = trim_cr(lines[0]);
        if is_blank(line) {
            detect_lines(lines.drop_first())
        } else if cmd_prefix().is_prefix_of(line) {
            HistoryFormat::Fish
        } else if extended_prefix(line) is Some {
            HistoryFormat::ZshExtended
        } else {
            HistoryFormat::Bash
        }
    }
}

/// The dialect that `s` is in.
pub open spec fn spec_detect(s: Seq<char>) -> HistoryFormat {
    detect_lines(lines_of(s))
}

/// The entries of `s`, read in the dialect it is in.
pub open spec fn spec_parse_auto(s: Seq<char>) -> Seq<EntryView> {
    match spec_detect(s) {
        HistoryFormat::Bash => spec_parse_bash(s),
        HistoryFormat::ZshExtended => spec_parse_zsh(s),
        HistoryFormat::Fish => spec_parse_fish(s),
    }
}

/// Guesses which dialect `input` is written in by looking at the first
/// non-blank line.
///
/// Fish and zsh's `EXTENDED_HISTORY` both have an unambiguous marker on
/// every entry (`- cmd: ` and `: <start>:<elapsed>;` respectively), so one
/// line is enough to tell them apart. Plain bash has no marker at all, so
/// it's the fallback for anything that isn't clearly one of the other two.
pub fn detect(input: &str) -> (f: HistoryFormat)
    ensures
        f == spec_detect(input@),
{
    let mut lines = LineCursor::new(input);
    let cmd_tag = vec!['-', ' ', 'c', 'm', 'd', ':', ' '];
    loop
        invariant
            detect_lines(lines.rest()) == spec_detect(input@),
            cmd_tag@ == cmd_prefix(),
        decreases lines.rest().len(),
    {
        let mut line = match lines.next_line() {
            Some(l) => l,
            None => {
                return HistoryFormat::Bash;
            },
        };
        strip_cr(&mut line);
        if blank(&line) {
            continue ;
        }
        if has_prefix(&line, &cmd_tag) {
            return HistoryFormat::Fish;
        }
        if looks_like_extended_prefix(&line) {
            return HistoryFormat::ZshExtended;
        }
        return HistoryFormat::Bash;
    }
}

/// Detects the format of `input` and parses it with the matching parser.
pub fn parse_auto(input: &str) -> (es: Vec<HistoryEntry>)
    ensures
        entries_view(es@) == spec_parse_auto(input@),
{
    match detect(input) {
        HistoryFormat::Bash => bash::parse(input),
        HistoryFormat::ZshExtended => zsh::parse(input),
        HistoryFormat::Fish => fish::parse(input),
    }
}

/// Like [`parse_auto`], but yields entries one at a time instead of
/// collecting them into a `Vec` up front, through the reader of the
/// detected dialect.
pub fn iter_auto(input: &str) -> (it: AutoHistory)
    ensures
        it.remaining() == spec_parse_auto(input@),
{
    match detect(input) {
        HistoryFormat::Bash => AutoHistory::Bash(bash::iter(input)),
        HistoryFormat::ZshExtended => AutoHistory::ZshExtended(zsh::iter(input)),
        HistoryFormat::Fish => AutoHistory::Fish(fish::iter(input)),
    }
}

/// The reader of whichever dialect a history was detected to be in.
pub enum AutoHistory {
    Bash(BashHistory),
    ZshExtended(ZshHistory),
    Fish(FishHistory),
}

impl AutoHistory {
    /// The entries still to come.
    pub open spec fn remaining(self) -> Seq<EntryView> {
        match self {
            AutoHistory::Bash(h) => h.remaining(),
            AutoHistory::ZshExtended(h) => h.remaining(),
            AutoHistory::Fish(h) => h.remaining(),
        }
    }

    /// The next entry, or `None` once the history is exhausted.
    pub fn next(&mut self) -> (r: Option<HistoryEntry>)
        ensures
            reader_step(old(self).remaining(), final(self).remaining(), r),
    {
        match self {
            AutoHistory::Bash(h) => h.next(),
            AutoHistory::ZshExtended(h) => h.next(),
            AutoHistory::Fish(h) => h.next(),
        }
    }
}


/// When the first entry of zsh history lines has a timestamp, the lines are
/// detected as zsh extended history.
proof fn lemma_detect_zsh(lines: Seq<Seq<char>>)
    requires
        zsh_entries(lines).len() > 0,
        zsh_entries(lines)[0].1 is Some,
    ensures
        detect_lines(lines) == HistoryFormat::ZshExtended,
    decreases lines.len(),
{
    let line = trim_cr(lines[0]);
    let rest = lines.drop_first();
    match extended_prefix(line) {
        Some((ts, cmd)) => {
            assert(line[0] == ':');
            assert(!is_blank(line));
            assert(!cmd_prefix().is_prefix_of(line)) by {
                if cmd_prefix().is_prefix_of(line) {
                    assert(line.subrange(0, 7)[0] == line[0]);
                }
            }
        },
        None => {
            if is_blank(line) {
                assert(zsh_entries(lines) == zsh_entries(rest));
                lemma_detect_zsh(rest);
            }
        },
    }
}

/// Zsh extended history that [`zsh::write`] wrote is detected as such when
/// its first entry has a timestamp, so [`parse_auto`] reads it back.
pub proof fn lemma_auto_reads_zsh(es: Seq<EntryView>)
    requires
        es.len() > 0,
        es[0].1 is Some,
        zsh_history_writable(es),
    ensures
        spec_parse_auto(spec_write_zsh(es)) == es,
{
    lemma_zsh_round_trip(es);
    lemma_detect_zsh(lines_of(spec_write_zsh(es)));
}

/// Fish history that [`fish::write`] wrote, with at least one entry, is
/// detected as fish history, so [`parse_auto`] reads it back.
pub proof fn lemma_auto_reads_fish(es: Seq<EntryView>)
    requires
        es.len() > 0,
        forall|i: int| 0 <= i < es.len() ==> fish_writable(#[trigger] es[i]),
    ensures
        spec_parse_auto(spec_write_fish(es)) == es,
{
    lemma_fish_round_trip(es);
    lemma_concat_texts_first(es, fish_text());
    let e = es[0];
    let line = cmd_prefix() + escape(e.0);
    lemma_escape_shape(e.0);
    assert(no_newline(line)) by {
        assert forall|i: int| 0 <= i < line.len() implies #[trigger] line[i] != '\n' by {
            if i >= 7 {
                assert(line[i] == escape(e.0)[i - 7]);
            }
        }
    }
    let rest = spec_write_fish(es.drop_first());
    let after = match e.1 {
        Some(t) => crate::fish::when_prefix() + i64_text(t) + seq!['\n'],
        None => seq![],
    };
    assert(spec_write_fish(es) =~= line + seq!['\n'] + (after + rest));
    lemma_lines_cons(line, after + rest);
    assert(line.last() != '\r') by {
        if e.0.len() > 0 {
            assert(line.last() == escape(e.0).last());
        }
    }
    assert(trim_cr(line) == line);
    assert(line[0] == '-');
    assert(!is_blank(line));
    assert(cmd_prefix().is_prefix_of(line)) by {
        assert(line.subrange(0, 7) =~= cmd_prefix());
    }
}

/// Bash history that [`bash::write`] wrote, with a timestamp on its first
/// entry, is detected as bash history, so [`parse_auto`] reads it back.
pub proof fn lemma_auto_reads_bash(es: Seq<EntryView>)
    requires
        es.len() > 0,
        es[0].1 is Some,
        forall|i: int| 0 <= i < es.len() ==> bash_writable(#[trigger] es[i]),
    ensures
        spec_parse_auto(spec_write_bash(es)) == es,
{
    lemma_bash_round_trip(es);
    lemma_concat_texts_first(es, bash_text());
    let e = es[0];
    let t = e.1->0;
    let stamp = seq!['#'] + i64_text(t);
    lemma_i64_text_chars(t);
    assert(no_newline(stamp)) by {
        assert forall|i: int| 0 <= i < stamp.len() implies #[trigger] stamp[i] != '\n' by {
            if i > 0 {
                assert(stamp[i] == i64_text(t)[i - 1]);
            }
        }
    }
    let rest = spec_write_bash(es.drop_first());
    assert(spec_write_bash(es) =~= stamp + seq!['\n'] + (e.0 + seq!['\n'] + rest));
    lemma_lines_cons(stamp, e.0 + seq!['\n'] + rest);
    assert(stamp.last() == i64_text(t).last());
    assert(trim_cr(stamp) == stamp);
    assert(stamp[0] == '#');
    assert(!is_blank(stamp));
    assert(!cmd_prefix().is_prefix_of(stamp)) by {
        if cmd_prefix().is_prefix_of(stamp) {
            assert(stamp.subrange(0, 7)[0] == stamp[0]);
        }
    }
}


/// `parse_auto` reads every text with the parser of the dialect that
/// `detect` gives for it, whatever entries that parser finds.
pub proof fn lemma_parse_auto_dispatch(s: Seq<char>)
    ensures
        spec_detect(s) == HistoryFormat::Bash ==> spec_parse_auto(s) == spec_parse_bash(s),
        spec_detect(s) == HistoryFormat::ZshExtended ==> spec_parse_auto(s) == spec_parse_zsh(s),
        spec_detect(s) == HistoryFormat::Fish ==> spec_parse_auto(s) == spec_parse_fish(s),
{
}

/// A text whose first nonblank line is neither a fish `- cmd: ` line nor a
/// zsh extended line is detected as bash history, and `parse_auto` reads it
/// exactly as `parse_bash` does.
pub proof fn lemma_parse_auto_bash_fallback(l: Seq<char>, rest: Seq<char>)
    requires
        no_newline(l),
        !is_blank(trim_cr(l)),
        !cmd_prefix().is_prefix_of(trim_cr(l)),
        extended_prefix(trim_cr(l)) is None,
    ensures
        spec_detect(l + seq!['\n'] + rest) == HistoryFormat::Bash,
        spec_parse_auto(l + seq!['\n'] + rest) == spec_parse_bash(l + seq!['\n'] + rest),
{
    lemma_lines_cons(l, rest);
    assert(lines_of(l + seq!['\n'] + rest)[0] == l);
}

} // verus!
