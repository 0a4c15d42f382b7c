//! zsh `EXTENDED_HISTORY`.

use vstd::prelude::*;
use crate::entry::{
    concat_texts, entries_view, lemma_concat_texts_first, lemma_concat_texts_take, make_entry,
    reader_step, EntryView, HistoryEntry,
};
use crate::num::{
    all_digits, digits_in, i64_text, lemma_i64_text_chars, lemma_parse_i64_text, parse_i64,
    push_i64, spec_parse_i64,
};
use crate::text::{
    blank, char_pos, chars_of, find_char, is_blank, lemma_char_pos, lemma_char_pos_unique,
    lemma_lines_cons, lines_of, no_newline, push_char, strip_cr, suffix, trim_cr, LineCursor,
};

verus! {

/// The timestamp and command of a line in the extended format
/// `: <start-time>:<elapsed-seconds>;<command>`. The start time is read as
/// `str::parse::<i64>` reads it, the elapsed field must be one or more
/// digits, and only the first `;` after it ends the prefix, so the command
/// may hold colons and semicolons of its own.
pub open spec fn extended_prefix(line: Seq<char>) -> Option<(i64, Seq<char>)> {
    if !(line.len() >= 2 && line[0] == ':' && line[1] == ' ') {
        None
    } else {
        let rest = line.skip(2);
        let colon = char_pos(rest, ':');
        if colon >= rest.len() {
            None
        } else {
            match spec_parse_i64(rest.take(colon as int)) {
                None => None,
                Some(ts) => {
                    let rest2 = rest.skip(colon + 1int);
                    let semi = char_pos(rest2, ';');
                    if semi >= rest2.len() {
                        None
                    } else {
                        let elapsed = rest2.take(semi as int);
                        if elapsed.len() == 0 || !all_digits(elapsed) {
                            None
                        } else {
                            Some((ts, rest2.skip(semi + 1int)))
                        }
                    }
                },
            }
        }
    }
}

/// Reads the extended prefix of `line`.
fn parse_extended_prefix(line: &Vec<char>) -> (r: Option<(i64, Vec<char>)>)
    ensures
        match r {
            None => extended_prefix(line@) is None,
            Some((ts, cmd)) => extended_prefix(line@) == Some((ts, cmd@)),
        },
{
    if line.len() < 2 || line[0] != ':' || line[1] != ' ' {
        return None;
    }
    let ghost rest = line@.skip(2);
    let colon = find_char(line, 2, ':');
    if colon == line.len() {
        return None;
    }
    assert(rest.take(colon - 2) =~= line@.subrange(2, colon as int));
    let ts = match parse_i64(line, 2, colon) {
        Some(ts) => ts,
        None => {
            return None;
        },
    };
    let ghost rest2 = rest.skip(colon - 2 + 1);
    assert(rest2 =~= line@.skip(colon + 1));
    let semi = find_char(line, colon + 1, ';');
    if semi == line.len() {
        return None;
    }
    assert(rest2.take(semi - colon - 1) =~= line@.subrange(colon + 1, semi as int));
    if semi == colon + 1 || !digits_in(line, colon + 1, semi) {
        return None;
    }
    let cmd = suffix(line, semi + 1);
    assert(rest2.skip(semi - colon - 1 + 1) =~= line@.skip(semi + 1));
    Some((ts, cmd))
}

/// Whether `line` starts with the extended-history prefix.
pub(crate) fn looks_like_extended_prefix(line: &Vec<char>) -> (b: bool)
    ensures
        b == extended_prefix(line@) is Some,
{
    parse_extended_prefix(line).is_some()
}

/// The command that `cmd` continues into over the lines `rest`, and how many
/// of those lines it takes: while the command ends in a backslash, the
/// backslash is dropped and the next line joins it after a line break.
pub open spec fn continued(cmd: Seq<char>, rest: Seq<Seq<char>>) -> (Seq<char>, nat)
    decreases rest.len(),
{
    if cmd.len() > 0 && cmd.last() == '\\' {
        if rest.len() == 0 {
            (cmd.drop_last(), 0)
        } else {
            let (c, n) = continued(cmd.drop_last() + seq!['\n'] + trim_cr(rest[0]), rest.drop_first());
            (c, n + 1)
        }
    } else {
        (cmd, 0)
    }
}

/// A command continues over no more lines than there are.
pub proof fn lemma_continued_len(cmd: Seq<char>, rest: Seq<Seq<char>>)
    ensures
        continued(cmd, rest).1 <= rest.len(),
    decreases rest.len(),
{
    if cmd.len() > 0 && cmd.last() == '\\' && rest.len() > 0 {
        lemma_continued_len(cmd.drop_last() + seq!['\n'] + trim_cr(rest[0]), rest.drop_first());
    }
}

/// The entries that the lines `lines` hold. A line with the extended prefix
/// starts an entry with a timestamp, continued over backslash-ended lines;
/// any other line that isn't blank is a command with no timestamp.
pub open spec fn zsh_entries(lines: Seq<Seq<char>>) -> Seq<EntryView>
    decreases lines.len(),
{
    if lines.len() == 0 {
        seq![]
    } else {
        let line = trim_cr(lines[0]);
        let rest = lines.drop_first();
        match extended_prefix(line) {
            Some((ts, cmd)) => {
                let (c, n) = continued(cmd, rest);
                proof {
                    lemma_continued_len(cmd, rest);
                }
                seq![(c, Some(ts))] + zsh_entries(rest.skip(n as int))
            },
            None => if is_blank(line) {
                zsh_entries(rest)
            } else {
                seq![(line, None)] + zsh_entries(rest)
            },
        }
    }
}

/// The entries of the zsh extended history `s`.
pub open spec fn spec_parse_zsh(s: Seq<char>) -> Seq<EntryView> {
    zsh_entries(lines_of(s))
}

/// Parses a zsh `EXTENDED_HISTORY` file.
///
/// Each entry looks like `: <start-time>:<elapsed-seconds>;<command>`. The
/// command itself is free text and may contain colons or semicolons, so
/// only the first semicolon after the two numeric fields is treated as the
/// separator. A command that spans multiple lines has every line but the
/// last end in a trailing backslash; those continuation lines carry no
/// prefix of their own and get folded back into the command with the
/// line breaks restored. A line that doesn't match the extended
/// format at all (SHARE_HISTORY was off when it was written, say) is kept
/// as a plain command with no timestamp.
pub fn parse(input: &str) -> (es: Vec<HistoryEntry>)
    ensures
        entries_view(es@) == spec_parse_zsh(input@),
{
    let mut it = iter(input);
    let mut out: Vec<HistoryEntry> = Vec::new();
    loop
        invariant
            entries_view(out@) + it.remaining() == spec_parse_zsh(input@),
        ensures
            entries_view(out@) == spec_parse_zsh(input@),
        decreases it.remaining().len(),
    {
        let ghost before = it.remaining();
        match it.next() {
            Some(e) => {
                out.push(e);
                assert(entries_view(out@) + it.remaining() =~= spec_parse_zsh(input@));
            },
            None => {
                assert(entries_view(out@) =~= entries_view(out@) + before);
                break ;
            },
        }
    }
    out
}

/// Like [`parse`], but yields entries one at a time instead of collecting
/// them into a `Vec` up front.
pub fn iter(input: &str) -> (it: ZshHistory)
    ensures
        it.remaining() == spec_parse_zsh(input@),
{
    ZshHistory { lines: LineCursor::new(input) }
}

/// The entries of a zsh extended history, read one at a time by
/// [`ZshHistory::next`].
pub struct ZshHistory {
    lines: LineCursor,
}

impl ZshHistory {
    /// The entries still to come.
    pub closed spec fn remaining(self) -> Seq<EntryView> {
        zsh_entries(self.lines.rest())
    }

    /// The next entry, or `None` once the history is exhausted.
    pub fn next(&mut self) -> (r: Option<HistoryEntry>)
        ensures
            reader_step(old(self).remaining(), final(self).remaining(), r),
    {
        loop
            invariant
                zsh_entries(self.lines.rest()) == old(self).remaining(),
            decreases self.lines.rest().len(),
        {
            let ghost all = self.lines.rest();
            let mut line = match self.lines.next_line() {
                Some(raw) => raw,
                None => {
                    return None;
                },
            };
            strip_cr(&mut line);
            match parse_extended_prefix(&line) {
                Some((ts, cmd)) => {
                    let ghost tail = self.lines.rest();
                    let ghost target = continued(cmd@, tail);
                    let ghost mut k: int = 0;
                    let mut command = cmd;
                    assert(tail.skip(0) =~= tail);
                    loop
                        invariant_except_break
                            0 <= k <= tail.len(),
                            self.lines.rest() == tail.skip(k),
                            continued(command@, tail.skip(k)) == (target.0, (target.1 - k) as nat),
                            k <= target.1,
                        invariant
                            tail == all.drop_first(),
                            target == continued(cmd@, tail),
                        ensures
                            command@ == target.0,
                            self.lines.rest() == tail.skip(target.1 as int),
                        decreases self.lines.rest().len(),
                    {
                        let n = command.len();
                        if n == 0 || command[n - 1] != '\\' {
                            break ;
                        }
                        let ghost before = command@;
                        let ghost x = tail.skip(k);
                        command.pop();
                        assert(command@ == before.drop_last());
                        match self.lines.next_line() {
                            Some(mut next) => {
                                assert(next@ == x[0]);
                                strip_cr(&mut next);
                                command.push('\n');
                                command.append(&mut next);
                                assert(command@ =~= before.drop_last() + seq!['\n'] + trim_cr(x[0]));
                                proof {
                                    assert(tail.skip(k).drop_first() =~= tail.skip(k + 1));
                                    k = k + 1;
                                }
                            },
                            None => {
                                break ;
                            },
                        }
                    }
                    let e = make_entry(&command, Some(ts));
                    proof {
                        lemma_continued_len(cmd@, tail);
                        assert(zsh_entries(all).drop_first() =~= zsh_entries(self.lines.rest()));
                    }
                    return Some(e);
                },
                None => {},
            }
            if blank(&line) {
                continue ;
            }
            let e = make_entry(&line, None);
            assert(zsh_entries(all).drop_first() =~= zsh_entries(self.lines.rest()));
            return Some(e);
        }
    }
}


/// How one character of a command is written: a line break gets a
/// backslash before it, as zsh writes a multi-line command.
pub open spec fn encode_char(c: char) -> Seq<char> {
    if c == '\n' {
        seq!['\\', '\n']
    } else {
        seq![c]
    }
}

/// How a command is written.
pub open spec fn encode(c: Seq<char>) -> Seq<char>
    decreases c.len(),
{
    if c.len() == 0 {
        seq![]
    } else {
        encode(c.drop_last()) + encode_char(c.last())
    }
}

/// How one entry is written: `: <epoch>:0;<command>` with each line break
/// of the command escaped when it has a timestamp, the bare command line
/// when it has none.
pub open spec fn zsh_entry_text(e: EntryView) -> Seq<char> {
    match e.1 {
        Some(t) => seq![':', ' '] + i64_text(t) + seq![':', '0', ';'] + encode(e.0) + seq!['\n'],
        None => e.0 + seq!['\n'],
    }
}

/// `zsh_entry_text` as a value.
pub open spec fn zsh_text() -> spec_fn(EntryView) -> Seq<char> {
    |e: EntryView| zsh_entry_text(e)
}

/// How the last entry of a history is written: as any other, except that a
/// timestamped command which does not end cleanly gets one more backslash at
/// the end. At the end of the file that backslash reads as a continuation
/// with no line left to join, and is dropped, leaving the command's own last
/// character in place.
pub open spec fn zsh_final_text(e: EntryView) -> Seq<char> {
    match e.1 {
        Some(t) => if ends_cleanly(e.0) {
            zsh_entry_text(e)
        } else {
            zsh_prefix(t) + encode(e.0) + seq!['\\', '\n']
        },
        None => zsh_entry_text(e),
    }
}

/// The zsh extended history text that `es` is written as.
pub open spec fn spec_write_zsh(es: Seq<EntryView>) -> Seq<char> {
    if es.len() == 0 {
        seq![]
    } else {
        concat_texts(es.drop_last(), zsh_text()) + zsh_final_text(es.last())
    }
}

/// Appends `cs` to `out` with each line break escaped.
fn push_encoded(out: &mut String, cs: &Vec<char>)
    ensures
        final(out)@ == old(out)@ + encode(cs@),
{
    let ghost start = out@;
    let mut i: usize = 0;
    assert(cs@.take(0) =~= Seq::<char>::empty());
    while i < cs.len()
        invariant
            i <= cs.len(),
            out@ == start + encode(cs@.take(i as int)),
        decreases cs.len() - i,
    {
        let c = cs[i];
        if c == '\n' {
            push_char(out, '\\');
            push_char(out, '\n');
        } else {
            push_char(out, c);
        }
        assert(cs@.take(i + 1).drop_last() =~= cs@.take(i as int));
        i += 1;
        assert(out@ =~= start + encode(cs@.take(i as int)));
    }
    assert(cs@.take(i as int) =~= cs@);
}

/// Appends the text of one entry to `out`; `last` says whether it is the
/// last entry of the history.
fn push_entry(out: &mut String, e: &HistoryEntry, last: bool)
    ensures
        final(out)@ == old(out)@ + (if last {
            zsh_final_text(e@)
        } else {
            zsh_entry_text(e@)
        }),
{
    match e.timestamp {
        Some(t) => {
            push_char(out, ':');
            push_char(out, ' ');
            push_i64(out, t);
            push_char(out, ':');
            push_char(out, '0');
            push_char(out, ';');
            let cs = chars_of(e.command.as_str());
            push_encoded(out, &cs);
            let n = cs.len();
            if last && n > 0 && (cs[n - 1] == '\\' || cs[n - 1] == '\r') {
                push_char(out, '\\');
            }
        },
        None => {
            out.append(e.command.as_str());
        },
    }
    push_char(out, '\n');
    assert(final(out)@ =~= old(out)@ + (if last {
        zsh_final_text(e@)
    } else {
        zsh_entry_text(e@)
    }));
}

/// Serializes `entries` as zsh `EXTENDED_HISTORY` text.
///
/// An entry with a timestamp is written as `: <epoch>:0;<command>` (the
/// elapsed time is not kept, so it is written as zero), with a backslash
/// before every line break of the command as zsh writes multi-line
/// commands; an entry without one is written as a bare command line. A
/// literal backslash or carriage return at the very end of a command can
/// only be carried on the last line of the file: there the command gets one
/// more backslash, which reading drops again, while anywhere else the
/// backslash would join the next line to the command and the carriage
/// return would be trimmed (see [`lemma_zsh_round_trip`] for the entries
/// that come back unchanged).
pub fn write(entries: &[HistoryEntry]) -> (s: String)
    ensures
        s@ == spec_write_zsh(entries_view(entries@)),
{
    let ghost es = entries_view(entries@);
    let mut out = String::new();
    let n = entries.len();
    if n == 0 {
        return out;
    }
    let mut i: usize = 0;
    while i < n - 1
        invariant
            n == entries.len(),
            n > 0,
            i <= n - 1,
            es == entries_view(entries@),
            out@ == concat_texts(es.take(i as int), zsh_text()),
        decreases n - 1 - i,
    {
        let ghost before = out@;
        push_entry(&mut out, &entries[i], false);
        proof {
            lemma_concat_texts_take(es, zsh_text(), i as int);
            assert(es[i as int] == entries@[i as int]@);
        }
        i += 1;
    }
    push_entry(&mut out, &entries[n - 1], true);
    assert(es.take(i as int) =~= es.drop_last());
    assert(es.last() == entries@[n - 1]@);
    out
}

/// Encoding distributes over concatenation.
proof fn lemma_encode_concat(a: Seq<char>, b: Seq<char>)
    ensures
        encode(a + b) == encode(a) + encode(b),
    decreases b.len(),
{
    if b.len() == 0 {
        assert(a + b =~= a);
        assert(encode(a) + encode(b) =~= encode(a));
    } else {
        lemma_encode_concat(a, b.drop_last());
        assert((a + b).drop_last() =~= a + b.drop_last());
        assert(encode(a + b) =~= encode(a) + encode(b));
    }
}

/// A command with no line break is written as it is.
proof fn lemma_encode_plain(a: Seq<char>)
    requires
        no_newline(a),
    ensures
        encode(a) == a,
    decreases a.len(),
{
    if a.len() > 0 {
        lemma_encode_plain(a.drop_last());
        assert(encode(a) =~= a);
    }
}

/// The lines a command is written on, when it follows a line prefix: each
/// line of the command, all but the last with a backslash after it.
pub open spec fn encoded_lines(c: Seq<char>) -> Seq<Seq<char>>
    decreases c.len(),
{
    let k = char_pos(c, '\n');
    if k >= c.len() {
        seq![c]
    } else {
        seq![c.take(k as int).push('\\')] + encoded_lines(c.skip(k + 1int))
    }
}

/// Splitting a command at its first line break, for writing.
proof fn lemma_encode_split(c: Seq<char>)
    requires
        char_pos(c, '\n') < c.len(),
    ensures
        ({
            let k = char_pos(c, '\n') as int;
            &&& no_newline(c.take(k))
            &&& c == c.take(k) + seq!['\n'] + c.skip(k + 1)
            &&& encode(c) == c.take(k) + seq!['\\', '\n'] + encode(c.skip(k + 1))
        }),
{
    let k = char_pos(c, '\n') as int;
    lemma_char_pos(c, '\n');
    assert(c =~= c.take(k) + seq!['\n'] + c.skip(k + 1));
    lemma_encode_concat(c.take(k) + seq!['\n'], c.skip(k + 1));
    lemma_encode_concat(c.take(k), seq!['\n']);
    lemma_encode_plain(c.take(k));
    assert(seq!['\n'].drop_last() =~= Seq::<char>::empty());
    assert(encode(Seq::<char>::empty()) == Seq::<char>::empty());
    assert(seq!['\n'].last() == '\n');
    assert(encode(seq!['\n']) =~= seq!['\\', '\n']);
}

/// The lines of a written command followed by more text.
proof fn lemma_encoded_lines(c: Seq<char>, w: Seq<char>)
    ensures
        lines_of(encode(c) + seq!['\n'] + w) == encoded_lines(c) + lines_of(w),
    decreases c.len(),
{
    let k = char_pos(c, '\n') as int;
    lemma_char_pos(c, '\n');
    if k >= c.len() {
        assert(no_newline(c));
        lemma_encode_plain(c);
        lemma_lines_cons(c, w);
    } else {
        lemma_encode_split(c);
        let a = c.take(k).push('\\');
        let c2 = c.skip(k + 1);
        lemma_encoded_lines(c2, w);
        assert(no_newline(a)) by {
            assert forall|i: int| 0 <= i < a.len() implies #[trigger] a[i] != '\n' by {
                if i < k {
                    assert(a[i] == c.take(k)[i]);
                }
            }
        }
        lemma_lines_cons(a, encode(c2) + seq!['\n'] + w);
        assert(encode(c) + seq!['\n'] + w =~= a + seq!['\n'] + (encode(c2) + seq!['\n'] + w));
        assert(encoded_lines(c) + lines_of(w) =~= seq![a] + (encoded_lines(c2) + lines_of(w)));
    }
}

/// A command whose last character could not survive being written: a
/// backslash would read as a continuation, a carriage return would be
/// trimmed.
pub open spec fn ends_cleanly(c: Seq<char>) -> bool {
    c.len() == 0 || (c.last() != '\\' && c.last() != '\r')
}

/// Reading the continuation lines of a written command gives the command back.
proof fn lemma_continued_encoded(acc: Seq<char>, c: Seq<char>, rest: Seq<Seq<char>>)
    requires
        ends_cleanly(c) || final_backslash(c, rest.len()),
    ensures
        continued(acc.push('\\'), encoded_lines(c) + rest) == (
            acc + seq!['\n'] + read_back(c),
            encoded_lines(c).len(),
        ),
    decreases c.len(),
{
    let k = char_pos(c, '\n') as int;
    lemma_char_pos(c, '\n');
    let lines = encoded_lines(c) + rest;
    let cmd = acc.push('\\');
    assert(cmd.drop_last() =~= acc);
    if k >= c.len() {
        assert(lines[0] == c);
        assert(trim_cr(c) == c);
        assert(lines.drop_first() =~= rest);
        let joined = acc + seq!['\n'] + c;
        assert(joined.len() > 0);
        if c.len() > 0 {
            assert(joined.last() == c.last());
        }
        if ends_cleanly(c) {
            assert(continued(joined, rest) == (joined, 0nat));
        } else {
            assert(joined.drop_last() =~= acc + seq!['\n'] + c.drop_last());
            assert(continued(joined, rest) == (joined.drop_last(), 0nat));
        }
    } else {
        lemma_encode_split(c);
        let a = c.take(k).push('\\');
        let c2 = c.skip(k + 1);
        if c2.len() > 0 {
            assert(c2.last() == c.last());
        }
        let acc2 = acc + seq!['\n'] + c.take(k);
        assert(ends_cleanly(c2) || final_backslash(c2, rest.len()));
        lemma_continued_encoded(acc2, c2, rest);
        assert(lines[0] == a);
        assert(trim_cr(a) == a);
        assert(lines.drop_first() =~= encoded_lines(c2) + rest);
        assert(cmd.drop_last() + seq!['\n'] + a =~= acc2.push('\\'));
        if ends_cleanly(c) {
            assert(acc2 + seq!['\n'] + c2 =~= acc + seq!['\n'] + c);
        } else {
            assert(acc2 + seq!['\n'] + c2.drop_last() =~= acc + seq!['\n'] + c.drop_last());
        }
    }
}

/// A command ending in a backslash that is written last in the history,
/// when no lines at all follow it.
pub open spec fn final_backslash(c: Seq<char>, following: nat) -> bool {
    following == 0 && c.len() > 0 && c.last() == '\\'
}

/// What a written command reads back as: itself, or, for a final
/// backslash, itself without that backslash.
pub open spec fn read_back(c: Seq<char>) -> Seq<char> {
    if ends_cleanly(c) {
        c
    } else {
        c.drop_last()
    }
}

/// The prefix that [`write`] puts before a command with timestamp `t`.
pub open spec fn zsh_prefix(t: i64) -> Seq<char> {
    seq![':', ' '] + i64_text(t) + seq![':', '0', ';']
}

/// A line made of the prefix and any text `x` reads back as `t` and `x`.
proof fn lemma_prefix_reads_back(t: i64, x: Seq<char>)
    ensures
        extended_prefix(zsh_prefix(t) + x) == Some((t, x)),
        no_newline(zsh_prefix(t)),
{
    let line = zsh_prefix(t) + x;
    let d = i64_text(t);
    lemma_i64_text_chars(t);
    lemma_parse_i64_text(t);
    let rest = line.skip(2);
    assert(rest =~= d + seq![':', '0', ';'] + x);
    assert forall|i: int| 0 <= i < d.len() implies rest[i] != ':' by {
        assert(rest[i] == d[i]);
    }
    lemma_char_pos_unique(rest, ':', d.len() as int);
    assert(rest.take(d.len() as int) =~= d);
    let rest2 = rest.skip(d.len() + 1int);
    assert(rest2 =~= seq!['0', ';'] + x);
    lemma_char_pos_unique(rest2, ';', 1);
    assert(rest2.take(1) =~= seq!['0']);
    assert(all_digits(seq!['0']));
    assert(rest2.skip(2) =~= x);
    let p = zsh_prefix(t);
    assert forall|i: int| 0 <= i < p.len() implies #[trigger] p[i] != '\n' by {
        if 2 <= i < 2 + d.len() {
            assert(p[i] == d[i - 2]);
        }
    }
}

/// The entries that the zsh history can carry unchanged. One with a
/// timestamp may hold any command that does not end in a backslash or a
/// carriage return; one without a timestamp is written as a bare line, so
/// its command must fit on one nonblank line that could not be taken for the
/// extended prefix.
pub open spec fn zsh_writable(e: EntryView) -> bool {
    match e.1 {
        Some(_) => ends_cleanly(e.0),
        None => {
            &&& !is_blank(e.0)
            &&& no_newline(e.0)
            &&& trim_cr(e.0) == e.0
            &&& extended_prefix(e.0) is None
        },
    }
}

/// A written entry whose command fits on one line, followed by `w`.
proof fn lemma_zsh_single_line(t: i64, cmd: Seq<char>, w: Seq<char>)
    requires
        ends_cleanly(cmd) || final_backslash(cmd, w.len()),
        no_newline(cmd),
    ensures
        zsh_entries(lines_of(zsh_prefix(t) + cmd + seq!['\n'] + w)) == seq![
            (read_back(cmd), Some(t)),
        ] + zsh_entries(lines_of(w)),
{
    let p = zsh_prefix(t);
    lemma_prefix_reads_back(t, cmd);
    let line = p + cmd;
    assert(no_newline(line)) by {
        assert forall|i: int| 0 <= i < line.len() implies #[trigger] line[i] != '\n' by {
            if i >= p.len() {
                assert(line[i] == cmd[i - p.len()]);
            } else {
                assert(line[i] == p[i]);
            }
        }
    }
    lemma_lines_cons(line, w);
    let lines = lines_of(line + seq!['\n'] + w);
    assert(line.last() != '\r') by {
        if cmd.len() > 0 {
            assert(line.last() == cmd.last());
        }
    }
    assert(trim_cr(line) == line);
    assert(lines.drop_first() =~= lines_of(w));
    if ends_cleanly(cmd) {
        assert(continued(cmd, lines_of(w)) == (cmd, 0nat));
    } else {
        assert(lines_of(w).len() == 0);
        assert(continued(cmd, lines_of(w)) == (cmd.drop_last(), 0nat));
    }
    assert(lines_of(w).skip(0) =~= lines_of(w));
}

/// A written entry whose command spans lines, followed by `w`.
proof fn lemma_zsh_multi_line(t: i64, cmd: Seq<char>, w: Seq<char>)
    requires
        ends_cleanly(cmd) || final_backslash(cmd, w.len()),
        char_pos(cmd, '\n') < cmd.len(),
    ensures
        zsh_entries(lines_of(zsh_prefix(t) + encode(cmd) + seq!['\n'] + w)) == seq![
            (read_back(cmd), Some(t)),
        ] + zsh_entries(lines_of(w)),
{
    let p = zsh_prefix(t);
    let k = char_pos(cmd, '\n') as int;
    lemma_encode_split(cmd);
    let c2 = cmd.skip(k + 1);
    if c2.len() > 0 {
        assert(c2.last() == cmd.last());
    }
    let x = cmd.take(k).push('\\');
    let line = p + x;
    lemma_prefix_reads_back(t, x);
    assert(no_newline(line)) by {
        assert forall|i: int| 0 <= i < line.len() implies #[trigger] line[i] != '\n' by {
            if i >= p.len() && i < line.len() - 1 {
                assert(line[i] == cmd.take(k)[i - p.len()]);
            } else if i < p.len() {
                assert(line[i] == p[i]);
            }
        }
    }
    lemma_encoded_lines(c2, w);
    lemma_lines_cons(line, encode(c2) + seq!['\n'] + w);
    let text = p + encode(cmd) + seq!['\n'] + w;
    assert(text =~= line + seq!['\n'] + (encode(c2) + seq!['\n'] + w));
    let lines = lines_of(text);
    let tail = encoded_lines(c2) + lines_of(w);
    assert(lines.drop_first() =~= tail);
    assert(trim_cr(line) == line);
    if !ends_cleanly(cmd) {
        assert(c2.len() > 0) by {
            if c2.len() == 0 {
                assert(cmd[k] == '\n');
                assert(k == cmd.len() - 1);
            }
        }
    }
    lemma_continued_encoded(cmd.take(k), c2, lines_of(w));
    if ends_cleanly(cmd) {
        assert(cmd.take(k) + seq!['\n'] + c2 =~= cmd);
    } else {
        assert(cmd.take(k) + seq!['\n'] + c2.drop_last() =~= cmd.drop_last());
    }
    assert(tail.skip(encoded_lines(c2).len() as int) =~= lines_of(w));
    assert(lines[0] == line);
    assert(zsh_entries(lines) == seq![(read_back(cmd), Some(t))] + zsh_entries(
        tail.skip(encoded_lines(c2).len() as int),
    ));
}

/// One written entry, followed by any text `w`, reads back as that entry
/// followed by what `w` reads as.
proof fn lemma_zsh_entry_lines(e: EntryView, w: Seq<char>)
    requires
        zsh_writable(e),
    ensures
        zsh_entries(lines_of(zsh_entry_text(e) + w)) == seq![e] + zsh_entries(lines_of(w)),
{
    let cmd = e.0;
    match e.1 {
        Some(t) => {
            lemma_char_pos(cmd, '\n');
            if char_pos(cmd, '\n') >= cmd.len() {
                assert(no_newline(cmd));
                lemma_encode_plain(cmd);
                lemma_zsh_single_line(t, cmd, w);
                assert(zsh_entry_text(e) + w =~= zsh_prefix(t) + cmd + seq!['\n'] + w);
            } else {
                lemma_zsh_multi_line(t, cmd, w);
                assert(zsh_entry_text(e) + w =~= zsh_prefix(t) + encode(cmd) + seq!['\n'] + w);
            }
        },
        None => {
            lemma_lines_cons(cmd, w);
            assert(zsh_entry_text(e) + w =~= cmd + seq!['\n'] + w);
            let lines = lines_of(zsh_entry_text(e) + w);
            assert(lines.drop_first() =~= lines_of(w));
        },
    }
}

/// The last entry of a history, written as [`write`] writes the last one,
/// reads back as itself.
proof fn lemma_zsh_final_entry(e: EntryView)
    requires
        zsh_writable(e) || e.1 is Some,
    ensures
        zsh_entries(lines_of(zsh_final_text(e))) == seq![e],
{
    let empty = Seq::<char>::empty();
    assert(lines_of(empty) == Seq::<Seq<char>>::empty());
    assert(zsh_entries(lines_of(empty)) == Seq::<EntryView>::empty());
    if zsh_writable(e) {
        lemma_zsh_entry_lines(e, empty);
        assert(zsh_final_text(e) == zsh_entry_text(e));
        assert(zsh_entry_text(e) + empty =~= zsh_entry_text(e));
        assert(seq![e] + Seq::<EntryView>::empty() =~= seq![e]);
    } else {
        let t = e.1->0;
        let cmd = e.0;
        let c2 = cmd.push('\\');
        assert(c2.drop_last() =~= cmd);
        assert(encode(c2) =~= encode(cmd) + seq!['\\']);
        assert(!ends_cleanly(c2));
        assert(read_back(c2) == cmd);
        let text = zsh_prefix(t) + encode(c2) + seq!['\n'] + empty;
        assert(zsh_final_text(e) =~= text);
        lemma_char_pos(c2, '\n');
        if char_pos(c2, '\n') >= c2.len() {
            assert(no_newline(c2));
            lemma_encode_plain(c2);
            lemma_zsh_single_line(t, c2, empty);
        } else {
            lemma_zsh_multi_line(t, c2, empty);
        }
        assert(seq![(cmd, Some(t))] + Seq::<EntryView>::empty() =~= seq![e]);
    }
}

/// The histories that zsh can carry unchanged: every entry can be written
/// anywhere, except that the last one may also be any timestamped command.
pub open spec fn zsh_history_writable(es: Seq<EntryView>) -> bool {
    forall|i: int|
        0 <= i < es.len() ==> zsh_writable(#[trigger] es[i]) || (i == es.len() - 1 && es[i].1 is Some)
}

/// The written history seen from the front: the first entry, written as
/// any but the last, then the rest.
proof fn lemma_write_zsh_first(es: Seq<EntryView>)
    requires
        es.len() >= 2,
    ensures
        spec_write_zsh(es) == zsh_entry_text(es[0]) + spec_write_zsh(es.drop_first()),
{
    lemma_concat_texts_first(es.drop_last(), zsh_text());
    assert(es.drop_last().drop_first() =~= es.drop_first().drop_last());
    assert(es.drop_first().last() == es.last());
    assert(spec_write_zsh(es) =~= zsh_entry_text(es[0]) + spec_write_zsh(es.drop_first()));
}

/// Reading back what [`write`] wrote gives the same entries, for every
/// history that zsh can carry.
pub proof fn lemma_zsh_round_trip(es: Seq<EntryView>)
    requires
        zsh_history_writable(es),
    ensures
        spec_parse_zsh(spec_write_zsh(es)) == es,
    decreases es.len(),
{
    if es.len() == 0 {
        assert(spec_write_zsh(es) == Seq::<char>::empty());
    } else if es.len() == 1 {
        assert(zsh_writable(es[0]) || es[0].1 is Some);
        lemma_zsh_final_entry(es[0]);
        assert(es.drop_last() =~= Seq::<EntryView>::empty());
        assert(concat_texts(es.drop_last(), zsh_text()) == Seq::<char>::empty());
        assert(spec_write_zsh(es) =~= zsh_final_text(es[0]));
        assert(seq![es[0]] =~= es);
    } else {
        let rest = es.drop_first();
        assert forall|i: int| 0 <= i < rest.len() implies zsh_writable(#[trigger] rest[i]) || (i
            == rest.len() - 1 && rest[i].1 is Some) by {
            assert(rest[i] == es[i + 1]);
        }
        lemma_zsh_round_trip(rest);
        lemma_write_zsh_first(es);
        assert(zsh_writable(es[0]));
        lemma_zsh_entry_lines(es[0], spec_write_zsh(rest));
        assert(seq![es[0]] + rest =~= es);
    }
}

/// The command that an extended prefix leaves is the end of its line.
proof fn lemma_prefix_command_ends_line(line: Seq<char>)
    requires
        extended_prefix(line) is Some,
    ensures
        extended_prefix(line).unwrap().1.len() == 0 || extended_prefix(line).unwrap().1.last() == line.last(),
{
    let rest = line.skip(2);
    let colon = char_pos(rest, ':');
    let rest2 = rest.skip(colon + 1int);
    let semi = char_pos(rest2, ';');
    let cmd = rest2.skip(semi + 1int);
    if cmd.len() > 0 {
        assert(cmd.last() == rest2.last());
        assert(rest2.last() == rest.last());
        assert(rest.last() == line.last());
    }
}

/// A continued command that does not end cleanly took every line that was
/// left, so nothing follows its entry.
proof fn lemma_continued_clean(cmd: Seq<char>, rest: Seq<Seq<char>>)
    requires
        cmd.len() == 0 || cmd.last() != '\r',
    ensures
        !ends_cleanly(continued(cmd, rest).0) ==> continued(cmd, rest).1 == rest.len(),
    decreases rest.len(),
{
    if cmd.len() > 0 && cmd.last() == '\\' && rest.len() > 0 {
        let next = trim_cr(rest[0]);
        crate::text::lemma_trim_cr(rest[0]);
        let joined = cmd.drop_last() + seq!['\n'] + next;
        if next.len() > 0 {
            assert(joined.last() == next.last());
        }
        lemma_continued_clean(joined, rest.drop_first());
    }
}

/// Every history that zsh lines yield can be written back unchanged.
proof fn lemma_zsh_entries_writable(lines: Seq<Seq<char>>)
    requires
        forall|i: int| 0 <= i < lines.len() ==> no_newline(#[trigger] lines[i]),
    ensures
        zsh_history_writable(zsh_entries(lines)),
    decreases lines.len(),
{
    if lines.len() > 0 {
        let line = trim_cr(lines[0]);
        let rest = lines.drop_first();
        crate::text::lemma_trim_cr(lines[0]);
        assert(no_newline(lines[0]));
        let es = zsh_entries(lines);
        match extended_prefix(line) {
            Some((ts, cmd)) => {
                let (c, n) = continued(cmd, rest);
                lemma_continued_len(cmd, rest);
                lemma_prefix_command_ends_line(line);
                lemma_continued_clean(cmd, rest);
                let tail = rest.skip(n as int);
                assert forall|i: int| 0 <= i < tail.len() implies no_newline(#[trigger] tail[i]) by {
                    assert(tail[i] == lines[i + 1 + n]);
                }
                lemma_zsh_entries_writable(tail);
                assert(es[0] == (c, Some(ts)));
                if !ends_cleanly(c) {
                    assert(tail.len() == 0);
                    assert(zsh_entries(tail) == Seq::<EntryView>::empty());
                    assert(es.len() == 1);
                }
                assert forall|i: int| 0 <= i < es.len() implies zsh_writable(#[trigger] es[i]) || (i
                    == es.len() - 1 && es[i].1 is Some) by {
                    if i > 0 {
                        assert(es[i] == zsh_entries(tail)[i - 1]);
                    }
                }
            },
            None => {
                assert forall|i: int| 0 <= i < rest.len() implies no_newline(#[trigger] rest[i]) by {
                    assert(rest[i] == lines[i + 1]);
                }
                lemma_zsh_entries_writable(rest);
                if is_blank(line) {
                    assert(es == zsh_entries(rest));
                } else {
                    assert(no_newline(line)) by {
                        assert forall|j: int| 0 <= j < line.len() implies #[trigger] line[j]
                            != '\n' by {
                            assert(line[j] == lines[0][j]);
                        }
                    }
                    assert(es[0] == (line, None::<i64>));
                    assert(zsh_writable(es[0]));
                    assert forall|i: int| 0 <= i < es.len() implies zsh_writable(#[trigger] es[i])
                        || (i == es.len() - 1 && es[i].1 is Some) by {
                        if i > 0 {
                            assert(es[i] == zsh_entries(rest)[i - 1]);
                        }
                    }
                }
            },
        }
    }
}

/// Rewriting a parsed zsh history and parsing it again gives the same
/// entries: `parse(write(parse(s))) == parse(s)` for every text `s`.
pub proof fn lemma_zsh_rewrite_stable(s: Seq<char>)
    ensures
        spec_parse_zsh(spec_write_zsh(spec_parse_zsh(s))) == spec_parse_zsh(s),
{
    crate::text::lemma_lines_no_newline(s);
    let lines = lines_of(s);
    assert forall|i: int| 0 <= i < lines.len() implies no_newline(#[trigger] lines[i]) by {
        assert forall|j: int| 0 <= j < lines[i].len() implies #[trigger] lines[i][j] != '\n' by {}
    }
    lemma_zsh_entries_writable(lines);
    lemma_zsh_round_trip(spec_parse_zsh(s));
}


/// The line `: <t>:<d>;<c>` that zsh writes for a command `c` started at
/// `t` that ran for the number of seconds written as `d`.
pub open spec fn extended_line(t: i64, d: Seq<char>, c: Seq<char>) -> Seq<char> {
    seq![':', ' '] + i64_text(t) + seq![':'] + d + seq![';'] + c
}

/// An extended line holds its start time and command, whatever digits its
/// elapsed field holds.
proof fn lemma_extended_line_prefix(t: i64, d: Seq<char>, c: Seq<char>)
    requires
        d.len() > 0,
        all_digits(d),
    ensures
        extended_prefix(extended_line(t, d, c)) == Some((t, c)),
{
    let line = extended_line(t, d, c);
    let n = i64_text(t);
    lemma_i64_text_chars(t);
    lemma_parse_i64_text(t);
    let rest = line.skip(2);
    assert(rest =~= n + seq![':'] + d + seq![';'] + c);
    assert forall|i: int| 0 <= i < n.len() implies rest[i] != ':' by {
        assert(rest[i] == n[i]);
    }
    lemma_char_pos_unique(rest, ':', n.len() as int);
    assert(rest.take(n.len() as int) =~= n);
    let rest2 = rest.skip(n.len() + 1int);
    assert(rest2 =~= d + seq![';'] + c);
    assert forall|i: int| 0 <= i < d.len() implies rest2[i] != ';' by {
        assert(rest2[i] == d[i]);
    }
    lemma_char_pos_unique(rest2, ';', d.len() as int);
    assert(rest2.take(d.len() as int) =~= d);
    assert(rest2.skip(d.len() + 1int) =~= c);
}

/// A zsh extended history line `: <t>:<d>;<c>`, for any start time `t`, any
/// nonempty run of digits `d` as the elapsed time and any one-line command
/// `c` that does not end in a backslash or a carriage return, reads as the
/// single entry `c` with timestamp `t`, followed by what the rest of the
/// text reads as; and a text starting with such a line is detected as zsh
/// extended history and read by `parse_auto` as such.
pub proof fn lemma_zsh_reads_extended_line(
    t: i64,
    d: Seq<char>,
    c: Seq<char>,
    rest: Seq<char>,
)
    requires
        d.len() > 0,
        all_digits(d),
        no_newline(c),
        ends_cleanly(c),
    ensures
        spec_parse_zsh(extended_line(t, d, c) + seq!['\n'] + rest) == seq![(c, Some(t))]
            + spec_parse_zsh(rest),
        crate::format::spec_detect(extended_line(t, d, c) + seq!['\n'] + rest)
            == crate::format::HistoryFormat::ZshExtended,
{
    let line = extended_line(t, d, c);
    lemma_extended_line_prefix(t, d, c);
    let n = i64_text(t);
    lemma_i64_text_chars(t);
    assert(no_newline(line)) by {
        assert forall|i: int| 0 <= i < line.len() implies #[trigger] line[i] != '\n' by {
            if 2 <= i < 2 + n.len() {
                assert(line[i] == n[i - 2]);
            } else if 3 + n.len() <= i < 3 + n.len() + d.len() {
                assert(line[i] == d[i - 3 - n.len()]);
            } else if i >= 4 + n.len() + d.len() {
                assert(line[i] == c[i - 4 - n.len() - d.len()]);
            }
        }
    }
    lemma_lines_cons(line, rest);
    let lines = lines_of(line + seq!['\n'] + rest);
    assert(line.last() != '\r') by {
        if c.len() > 0 {
            assert(line.last() == c.last());
        }
    }
    assert(trim_cr(line) == line);
    assert(lines[0] == line);
    assert(lines.drop_first() =~= lines_of(rest));
    assert(continued(c, lines_of(rest)) == (c, 0nat));
    assert(lines_of(rest).skip(0) =~= lines_of(rest));
    assert(line[0] == ':');
    assert(!is_blank(line));
    assert(!crate::fish::cmd_prefix().is_prefix_of(line)) by {
        if crate::fish::cmd_prefix().is_prefix_of(line) {
            assert(line.subrange(0, 7)[0] == line[0]);
        }
    }
}

} // verus!
