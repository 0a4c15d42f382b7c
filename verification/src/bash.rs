//! Plain and `HISTTIMESTAMP` bash history.

use vstd::prelude::*;
use crate::entry::{
    concat_texts, entries_view, lemma_concat_texts_first, lemma_concat_texts_take, make_entry,
    reader_step, EntryView, HistoryEntry,
};
use crate::num::{
    all_digits, digits_in, i64_text, lemma_nat_text, lemma_parse_i64_text, parse_i64, push_i64,
    spec_parse_i64,
};
use crate::text::{
    blank, is_blank, lemma_lines_cons, lemma_lines_no_newline, lemma_trim_cr, lines_of, no_newline,
    push_char, strip_cr, trim_cr, LineCursor,
};

verus! {

/// The epoch that a `HISTTIMESTAMP` comment line (`#` and one or more
/// digits, nothing else) holds; `None` for any other line, and for one whose
/// number does not fit in an `i64`.
pub open spec fn timestamp_comment(line: Seq<char>) -> Option<i64> {
    if line.len() >= 2 && line[0] == '#' && all_digits(line.drop_first()) {
        spec_parse_i64(line.drop_first())
    } else {
        None
    }
}

/// The entries that the lines `lines` hold, when `pending` is the timestamp
/// read just before them. Blank lines are skipped; a timestamp comment sets
/// the timestamp of the next command only; every other line is a command.
pub open spec fn bash_entries(lines: Seq<Seq<char>>, pending: Option<i64>) -> Seq<EntryView>
    decreases lines.len(),
{
    if lines.len() == 0 {
        seq![]
    } else {
        let line = trim_cr(lines[0]);
        if is_blank(line) {
            bash_entries(lines.drop_first(), pending)
        } else if timestamp_comment(line) is Some {
            bash_entries(lines.drop_first(), timestamp_comment(line))
        } else {
            seq![(line, pending)] + bash_entries(lines.drop_first(), None)
        }
    }
}

/// The entries of the bash history `s`.
pub open spec fn spec_parse_bash(s: Seq<char>) -> Seq<EntryView> {
    bash_entries(lines_of(s), None)
}

/// Reads the epoch of a timestamp comment line.
fn parse_timestamp_comment(line: &Vec<char>) -> (r: Option<i64>)
    ensures
        r == timestamp_comment(line@),
{
    if line.len() < 2 || line[0] != '#' {
        return None;
    }
    if !digits_in(line, 1, line.len()) {
        assert(line@.subrange(1, line@.len() as int) =~= line@.drop_first());
        return None;
    }
    let r = parse_i64(line, 1, line.len());
    assert(line@.subrange(1, line@.len() as int) =~= line@.drop_first());
    r
}

/// Parses a plain or `HISTTIMESTAMP`-enabled bash history file.
///
/// With `HISTTIMESTAMP` set, bash writes each command as a pair of lines:
/// a comment holding the epoch seconds (`#1690000000`), then the command
/// itself on the next line. Without it, every line is just a command.
/// A stray `#` line that isn't all digits is not a timestamp marker; bash
/// stores it verbatim because it's a real comment the user typed at the
/// prompt, so it comes back as a command with no timestamp attached.
pub fn parse(input: &str) -> (es: Vec<HistoryEntry>)
    ensures
        entries_view(es@) == spec_parse_bash(input@),
{
    let mut it = iter(input);
    let mut out: Vec<HistoryEntry> = Vec::new();
    loop
        invariant
            entries_view(out@) + it.remaining() == spec_parse_bash(input@),
        ensures
            entries_view(out@) == spec_parse_bash(input@),
        decreases it.remaining().len(),
    {
        let ghost before = it.remaining();
        match it.next() {
            Some(e) => {
                out.push(e);
                assert(entries_view(out@) + it.remaining() =~= spec_parse_bash(input@));
            },
            None => {
                assert(entries_view(out@) =~= entries_view(out@) + before);
                break ;
            },
        }
    }
    out
}

/// Like [`parse`], but yields entries one at a time instead of collecting
/// them into a `Vec` up front. Lets a caller stop early or process a history
/// file too large to want fully materialized in memory.
pub fn iter(input: &str) -> (it: BashHistory)
    ensures
        it.remaining() == spec_parse_bash(input@),
{
    BashHistory { lines: LineCursor::new(input), pending_timestamp: None }
}

/// The entries of a bash history, read one at a time by [`BashHistory::next`].
pub struct BashHistory {
    lines: LineCursor,
    pending_timestamp: Option<i64>,
}

impl BashHistory {
    /// The entries still to come.
    pub closed spec fn remaining(self) -> Seq<EntryView> {
        bash_entries(self.lines.rest(), self.pending_timestamp)
    }

    /// The next entry, or `None` once the history is exhausted.
    pub fn next(&mut self) -> (r: Option<HistoryEntry>)
        ensures
            reader_step(old(self).remaining(), final(self).remaining(), r),
    {
        loop
            invariant
                bash_entries(self.lines.rest(), self.pending_timestamp) == old(self).remaining(),
            decreases self.lines.rest().len(),
        {
            let ghost rest = self.lines.rest();
            let mut line = match self.lines.next_line() {
                Some(raw) => raw,
                None => {
                    return None;
                },
            };
            strip_cr(&mut line);
            if blank(&line) {
                continue ;
            }
            match parse_timestamp_comment(&line) {
                Some(ts) => {
                    self.pending_timestamp = Some(ts);
                    continue ;
                },
                None => {},
            }
            let e = make_entry(&line, self.pending_timestamp);
            let ghost before = bash_entries(rest, self.pending_timestamp);
            self.pending_timestamp = None;
            assert(before.drop_first() =~= bash_entries(self.lines.rest(), None));
            return Some(e);
        }
    }
}


/// How one entry is written: a `#<epoch>` line first when it has a
/// timestamp, then the command on a line of its own.
pub open spec fn bash_entry_text(e: EntryView) -> Seq<char> {
    match e.1 {
        Some(t) => seq!['#'] + i64_text(t) + seq!['\n'] + e.0 + seq!['\n'],
        None => e.0 + seq!['\n'],
    }
}

/// `bash_entry_text` as a value.
pub open spec fn bash_text() -> spec_fn(EntryView) -> Seq<char> {
    |e: EntryView| bash_entry_text(e)
}

/// The bash history text that `es` is written as.
pub open spec fn spec_write_bash(es: Seq<EntryView>) -> Seq<char> {
    concat_texts(es, bash_text())
}

/// Serializes `entries` back into bash history text.
///
/// An entry with a timestamp gets a `#<epoch>` comment line ahead of the
/// command, matching what `HISTTIMESTAMP` produces; an entry without one is
/// written as a bare command line. A command that itself starts with `#`
/// and is all digits is indistinguishable from a timestamp comment once
/// written — that ambiguity is inherent to the format, not something this
/// library introduces.
pub fn write(entries: &[HistoryEntry]) -> (s: String)
    ensures
        s@ == spec_write_bash(entries_view(entries@)),
{
    let ghost es = entries_view(entries@);
    let mut out = String::new();
    let mut i: usize = 0;
    while i < entries.len()
        invariant
            i <= entries.len(),
            es == entries_view(entries@),
            out@ == concat_texts(es.take(i as int), bash_text()),
        decreases entries.len() - i,
    {
        let e = &entries[i];
        let ghost before = out@;
        match e.timestamp {
            Some(t) => {
                push_char(&mut out, '#');
                push_i64(&mut out, t);
                push_char(&mut out, '\n');
            },
            None => {},
        }
        out.append(e.command.as_str());
        push_char(&mut out, '\n');
        proof {
            lemma_concat_texts_take(es, bash_text(), i as int);
            assert(es[i as int] == e@);
            assert(out@ =~= before + bash_entry_text(e@));
        }
        i += 1;
    }
    assert(es.take(i as int) =~= es);
    out
}

/// The entries that a bash history can carry unchanged: a command that
/// fits on one nonblank line, does not end in a carriage return and cannot
/// be taken for a timestamp comment, with no timestamp before 1970.
pub open spec fn bash_writable(e: EntryView) -> bool {
    &&& !is_blank(e.0)
    &&& no_newline(e.0)
    &&& trim_cr(e.0) == e.0
    &&& timestamp_comment(e.0) is None
    &&& (e.1 matches Some(t) ==> t >= 0)
}

/// The lines of one written entry, followed by any text `r`, read back as
/// that entry followed by what `r` reads as.
proof fn lemma_bash_entry_lines(e: EntryView, r: Seq<char>)
    requires
        bash_writable(e),
    ensures
        bash_entries(lines_of(bash_entry_text(e) + r), None) == seq![e] + bash_entries(
            lines_of(r),
            None,
        ),
{
    let cmd = e.0;
    lemma_lines_cons(cmd, r);
    match e.1 {
        Some(t) => {
            let stamp = seq!['#'] + i64_text(t);
            lemma_nat_text(t as nat);
            lemma_parse_i64_text(t);
            assert(stamp.drop_first() =~= i64_text(t));
            assert(no_newline(stamp)) by {
                assert forall|i: int| 0 <= i < stamp.len() implies #[trigger] stamp[i] != '\n' by {
                    if i > 0 {
                        assert(stamp[i] == i64_text(t)[i - 1]);
                    }
                }
            }
            lemma_lines_cons(stamp, cmd + seq!['\n'] + r);
            assert(bash_entry_text(e) + r =~= stamp + seq!['\n'] + (cmd + seq!['\n'] + r));
            let lines = lines_of(bash_entry_text(e) + r);
            assert(lines =~= seq![stamp] + (seq![cmd] + lines_of(r)));
            assert(stamp.last() == i64_text(t).last());
            assert(trim_cr(stamp) == stamp);
            assert(!is_blank(stamp)) by {
                assert(stamp[0] == '#');
            }
            assert(timestamp_comment(stamp) == Some(t));
            assert(lines.drop_first() =~= seq![cmd] + lines_of(r));
            assert(lines.drop_first().drop_first() =~= lines_of(r));
            assert(bash_entries(lines, None) == bash_entries(lines.drop_first(), Some(t)));
            assert(bash_entries(lines.drop_first(), Some(t)) == seq![(cmd, Some(t))]
                + bash_entries(lines_of(r), None));
        },
        None => {
            assert(bash_entry_text(e) + r =~= cmd + seq!['\n'] + r);
            let lines = lines_of(bash_entry_text(e) + r);
            assert(lines.drop_first() =~= lines_of(r));
        },
    }
}

/// Reading back what [`write`] wrote gives the same entries, for every
/// entry that bash history can carry.
pub proof fn lemma_bash_round_trip(es: Seq<EntryView>)
    requires
        forall|i: int| 0 <= i < es.len() ==> bash_writable(#[trigger] es[i]),
    ensures
        spec_parse_bash(spec_write_bash(es)) == es,
    decreases es.len(),
{
    if es.len() > 0 {
        let rest = es.drop_first();
        assert forall|i: int| 0 <= i < rest.len() implies bash_writable(#[trigger] rest[i]) by {
            assert(rest[i] == es[i + 1]);
        }
        lemma_bash_round_trip(rest);
        lemma_concat_texts_first(es, bash_text());
        lemma_bash_entry_lines(es[0], spec_write_bash(rest));
        assert(seq![es[0]] + rest =~= es);
    } else {
        assert(spec_write_bash(es) == Seq::<char>::empty());
    }
}

/// A timestamp comment never holds a time before 1970.
proof fn lemma_timestamp_comment_nonneg(line: Seq<char>)
    ensures
        timestamp_comment(line) matches Some(t) ==> t >= 0,
{
    if line.len() >= 2 && line[0] == '#' && all_digits(line.drop_first()) {
        assert('0' <= line.drop_first()[0] <= '9');
    }
}

/// Every entry that bash history lines yield can be written back unchanged.
proof fn lemma_bash_entries_writable(lines: Seq<Seq<char>>, pending: Option<i64>)
    requires
        forall|i: int| 0 <= i < lines.len() ==> no_newline(#[trigger] lines[i]),
        pending matches Some(t) ==> t >= 0,
    ensures
        forall|i: int|
            0 <= i < bash_entries(lines, pending).len() ==> bash_writable(
                #[trigger] bash_entries(lines, pending)[i],
            ),
    decreases lines.len(),
{
    if lines.len() > 0 {
        let line = trim_cr(lines[0]);
        let rest = lines.drop_first();
        assert forall|i: int| 0 <= i < rest.len() implies no_newline(#[trigger] rest[i]) by {
            assert(rest[i] == lines[i + 1]);
        }
        lemma_trim_cr(lines[0]);
        assert(no_newline(lines[0]));
        assert(no_newline(line)) by {
            assert forall|j: int| 0 <= j < line.len() implies #[trigger] line[j] != '\n' by {
                assert(line[j] == lines[0][j]);
            }
        }
        if is_blank(line) {
            lemma_bash_entries_writable(rest, pending);
            assert(bash_entries(lines, pending) == bash_entries(rest, pending));
        } else if timestamp_comment(line) is Some {
            lemma_timestamp_comment_nonneg(line);
            lemma_bash_entries_writable(rest, timestamp_comment(line));
            assert(bash_entries(lines, pending) == bash_entries(rest, timestamp_comment(line)));
        } else {
            lemma_bash_entries_writable(rest, None);
            let es = bash_entries(lines, pending);
            assert(es[0] == (line, pending));
            assert(trim_cr(line) == line);
            assert(timestamp_comment(line) is None);
            assert(bash_writable(es[0]));
            assert forall|i: int| 0 <= i < es.len() implies bash_writable(#[trigger] es[i]) by {
                if i > 0 {
                    assert(es[i] == bash_entries(rest, None)[i - 1]);
                }
            }
        }
    }
}

/// Rewriting a parsed bash history and parsing it again gives the same
/// entries: `parse(write(parse(s))) == parse(s)` for every text `s`.
pub proof fn lemma_bash_rewrite_stable(s: Seq<char>)
    ensures
        spec_parse_bash(spec_write_bash(spec_parse_bash(s))) == spec_parse_bash(s),
{
    lemma_lines_no_newline(s);
    let lines = lines_of(s);
    assert forall|i: int| 0 <= i < lines.len() implies no_newline(#[trigger] lines[i]) by {
        assert forall|j: int| 0 <= j < lines[i].len() implies #[trigger] lines[i][j] != '\n' by {}
    }
    lemma_bash_entries_writable(lines, None);
    lemma_bash_round_trip(spec_parse_bash(s));
}


/// Every command that bash history lines yield is one of the lines, with its
/// trailing carriage returns trimmed.
proof fn lemma_bash_entries_from_lines(lines: Seq<Seq<char>>, pending: Option<i64>)
    ensures
        forall|i: int|
            0 <= i < bash_entries(lines, pending).len() ==> exists|j: int|
                0 <= j < lines.len() && #[trigger] bash_entries(lines, pending)[i].0 == trim_cr(
                    lines[j],
                ),
    decreases lines.len(),
{
    if lines.len() > 0 {
        let line = trim_cr(lines[0]);
        let rest = lines.drop_first();
        let next = if is_blank(line) {
            pending
        } else if timestamp_comment(line) is Some {
            timestamp_comment(line)
        } else {
            None
        };
        lemma_bash_entries_from_lines(rest, next);
        let es = bash_entries(lines, pending);
        let tail = bash_entries(rest, next);
        assert forall|i: int| 0 <= i < es.len() implies exists|j: int|
            0 <= j < lines.len() && #[trigger] es[i].0 == trim_cr(lines[j]) by {
            if !is_blank(line) && timestamp_comment(line) is None {
                if i == 0 {
                    assert(es[0].0 == trim_cr(lines[0]));
                } else {
                    assert(es[i] == tail[i - 1]);
                    let j = choose|j: int| 0 <= j < rest.len() && tail[i - 1].0 == trim_cr(rest[j]);
                    assert(rest[j] == lines[j + 1]);
                }
            } else {
                assert(es == tail);
                let j = choose|j: int| 0 <= j < rest.len() && tail[i].0 == trim_cr(rest[j]);
                assert(rest[j] == lines[j + 1]);
            }
        }
    }
}

/// Each entry of a bash history is one of its lines, trimmed of trailing
/// carriage returns: a nonblank line with no line break that is not a
/// timestamp comment, and its timestamp, when it has one, is not before
/// 1970.
pub proof fn lemma_bash_entry_shape(s: Seq<char>)
    ensures
        forall|i: int|
            0 <= i < spec_parse_bash(s).len() ==> bash_writable(#[trigger] spec_parse_bash(s)[i])
                && exists|j: int|
                0 <= j < lines_of(s).len() && spec_parse_bash(s)[i].0 == trim_cr(lines_of(s)[j]),
{
    lemma_lines_no_newline(s);
    let lines = lines_of(s);
    assert forall|i: int| 0 <= i < lines.len() implies no_newline(#[trigger] lines[i]) by {
        assert forall|j: int| 0 <= j < lines[i].len() implies #[trigger] lines[i][j] != '\n' by {}
    }
    lemma_bash_entries_writable(lines, None);
    lemma_bash_entries_from_lines(lines, None);
}


/// The nonblank lines among `lines`, in order, trimmed of trailing carriage
/// returns.
pub open spec fn nonblank_lines(lines: Seq<Seq<char>>) -> Seq<Seq<char>>
    decreases lines.len(),
{
    if lines.len() == 0 {
        seq![]
    } else if is_blank(trim_cr(lines[0])) {
        nonblank_lines(lines.drop_first())
    } else {
        seq![trim_cr(lines[0])] + nonblank_lines(lines.drop_first())
    }
}

/// The timestamp that the line before `lines[i]` holds, if any.
pub open spec fn stamp_before(lines: Seq<Seq<char>>, i: int) -> Option<i64> {
    if i > 0 {
        timestamp_comment(lines[i - 1])
    } else {
        None
    }
}

/// One entry for each line `lines[j]`, `j >= i`, that is no timestamp
/// comment: the line, with the timestamp of the line before it.
pub open spec fn entries_from(lines: Seq<Seq<char>>, i: int) -> Seq<EntryView>
    decreases lines.len() - i,
{
    if i < 0 || i >= lines.len() {
        seq![]
    } else if timestamp_comment(lines[i]) is Some {
        entries_from(lines, i + 1)
    } else {
        seq![(lines[i], stamp_before(lines, i))] + entries_from(lines, i + 1)
    }
}

/// `bash_entries` of some lines, read after the nonblank lines `before`.
proof fn lemma_bash_entries_indexed(lines: Seq<Seq<char>>, before: Seq<Seq<char>>)
    ensures
        bash_entries(lines, stamp_before(before + nonblank_lines(lines), before.len() as int))
            == entries_from(before + nonblank_lines(lines), before.len() as int),
    decreases lines.len(),
{
    let full = before + nonblank_lines(lines);
    let i = before.len() as int;
    if lines.len() == 0 {
        assert(full =~= before);
    } else {
        let l = trim_cr(lines[0]);
        let rest = lines.drop_first();
        if is_blank(l) {
            lemma_bash_entries_indexed(rest, before);
        } else {
            let before2 = before.push(l);
            assert(full =~= before2 + nonblank_lines(rest));
            assert(full[i] == l);
            lemma_bash_entries_indexed(rest, before2);
            assert(stamp_before(full, i + 1) == timestamp_comment(l));
        }
    }
}

/// The entries of a bash history, by index: with `L` its nonblank lines,
/// trimmed of trailing carriage returns, there is one entry for each `L[i]`
/// that is no timestamp comment, in order, holding `L[i]` and the timestamp
/// of `L[i - 1]` (`None` when `L[i - 1]` is a command, or when `i == 0`).
pub proof fn lemma_bash_entries_by_index(s: Seq<char>)
    ensures
        spec_parse_bash(s) == entries_from(nonblank_lines(lines_of(s)), 0),
{
    let empty = Seq::<Seq<char>>::empty();
    lemma_bash_entries_indexed(lines_of(s), empty);
    assert(empty + nonblank_lines(lines_of(s)) =~= nonblank_lines(lines_of(s)));
}


/// Writing no entries writes nothing; writing one more entry appends, after
/// what the others write, a `#<epoch>` line when the entry has a timestamp,
/// then its whole command, line breaks and all, and a line break.
pub proof fn lemma_write_bash_appends(es: Seq<EntryView>, e: EntryView)
    ensures
        spec_write_bash(seq![]) == Seq::<char>::empty(),
        spec_write_bash(es.push(e)) == spec_write_bash(es) + match e.1 {
            Some(t) => seq!['#'] + i64_text(t) + seq!['\n'],
            None => Seq::<char>::empty(),
        } + e.0 + seq!['\n'],
{
    assert(es.push(e).drop_last() =~= es);
    assert(es.push(e).last() == e);
    let stamp = match e.1 {
        Some(t) => seq!['#'] + i64_text(t) + seq!['\n'],
        None => Seq::<char>::empty(),
    };
    assert(bash_entry_text(e) =~= stamp + e.0 + seq!['\n']);
    assert(spec_write_bash(es.push(e)) =~= spec_write_bash(es) + stamp + e.0 + seq!['\n']);
}

/// A line with a character that is not white space, which is no timestamp
/// comment, is a command: it reads as an entry holding exactly that line,
/// with the timestamp of a `#<epoch>` line just before it, if any; a line
/// of white space only yields nothing and leaves the timestamp pending.
pub proof fn lemma_bash_line_is_command(
    l: Seq<char>,
    t: Option<i64>,
    rest: Seq<char>,
)
    requires
        no_newline(l),
        l.len() == 0 || l.last() != '\r',
        exists|i: int| 0 <= i < l.len() && !crate::text::is_ws(#[trigger] l[i]),
        timestamp_comment(l) is None,
        t matches Some(t) ==> t >= 0,
    ensures
        spec_parse_bash(match t {
            Some(t) => seq!['#'] + i64_text(t) + seq!['\n'],
            None => Seq::<char>::empty(),
        } + l + seq!['\n'] + rest) == seq![(l, t)] + spec_parse_bash(rest),
{
    let i = choose|i: int| 0 <= i < l.len() && !crate::text::is_ws(#[trigger] l[i]);
    assert(!is_blank(l));
    assert(trim_cr(l) == l);
    lemma_lines_cons(l, rest);
    match t {
        Some(t) => {
            let e = (l, Some(t));
            assert(bash_writable(e));
            lemma_bash_entry_lines(e, rest);
            assert(bash_entry_text(e) + rest =~= seq!['#'] + i64_text(t) + seq!['\n'] + l
                + seq!['\n'] + rest);
        },
        None => {
            let text = Seq::<char>::empty() + l + seq!['\n'] + rest;
            assert(text =~= l + seq!['\n'] + rest);
            let lines = lines_of(text);
            assert(lines.drop_first() =~= lines_of(rest));
        },
    }
}

/// A line of white space only, blank lines among them, reads as nothing:
/// the timestamp read before it stays pending for the next command.
pub proof fn lemma_bash_blank_line_skipped(l: Seq<char>, rest: Seq<char>, t: Option<i64>)
    requires
        no_newline(l),
        forall|i: int| 0 <= i < l.len() ==> crate::text::is_ws(#[trigger] l[i]),
    ensures
        bash_entries(lines_of(l + seq!['\n'] + rest), t) == bash_entries(lines_of(rest), t),
{
    lemma_lines_cons(l, rest);
    lemma_trim_cr(l);
    let m = trim_cr(l);
    assert forall|i: int| 0 <= i < m.len() implies crate::text::is_ws(#[trigger] m[i]) by {
        assert(m[i] == l[i]);
    }
    assert(is_blank(m));
    let lines = lines_of(l + seq!['\n'] + rest);
    assert(lines.drop_first() =~= lines_of(rest));
}

} // verus!
