//! fish's `fish_history` format.

use vstd::prelude::*;
use crate::entry::{
    concat_texts, entries_view, lemma_concat_texts_first, lemma_concat_texts_take, make_entry,
    reader_step, EntryView, HistoryEntry,
};
use crate::num::{i64_text, lemma_i64_text_chars, lemma_parse_i64_text, parse_i64, push_i64, spec_parse_i64};
use crate::text::{
    chars_of, has_prefix, lemma_lines_cons, lines_of, no_newline, push_char, push_chars, strip_cr,
    trim_cr, trim_ws, trimmed_bounds, LineCursor,
};

verus! {

/// `- cmd: `, which starts every entry.
pub open spec fn cmd_prefix() -> Seq<char> {
    seq!['-', ' ', 'c', 'm', 'd', ':', ' ']
}

/// `  when: `, which starts the line holding an entry's epoch.
pub open spec fn when_prefix() -> Seq<char> {
    seq![' ', ' ', 'w', 'h', 'e', 'n', ':', ' ']
}

/// `  paths:`, the line that opens an entry's block of paths.
pub open spec fn paths_line() -> Seq<char> {
    seq![' ', ' ', 'p', 'a', 't', 'h', 's', ':']
}

/// `    - `, which starts each line of a block of paths.
pub open spec fn path_item_prefix() -> Seq<char> {
    seq![' ', ' ', ' ', ' ', '-', ' ']
}

/// The command text that fish's escaped text `s` stands for: `\\` is a
/// backslash and `\n` a line break; any other backslash is kept as it is.
pub open spec fn unescape(s: Seq<char>) -> Seq<char>
    decreases s.len(),
{
    if s.len() == 0 {
        seq![]
    } else if s[0] != '\\' {
        seq![s[0]] + unescape(s.drop_first())
    } else if s.len() == 1 {
        seq!['\\']
    } else if s[1] == 'n' {
        seq!['\n'] + unescape(s.skip(2))
    } else if s[1] == '\\' {
        seq!['\\'] + unescape(s.skip(2))
    } else {
        seq!['\\', s[1]] + unescape(s.skip(2))
    }
}

/// Undoes fish's escaping of `v[from..]`.
fn unescape_from(v: &Vec<char>, from: usize) -> (r: Vec<char>)
    requires
        from <= v.len(),
    ensures
        r@ == unescape(v@.skip(from as int)),
{
    let mut out: Vec<char> = Vec::new();
    let mut i = from;
    while i < v.len()
        invariant
            from <= i <= v.len(),
            out@ + unescape(v@.skip(i as int)) == unescape(v@.skip(from as int)),
        decreases v.len() - i,
    {
        let ghost s = v@.skip(i as int);
        let ghost before = out@;
        let c = v[i];
        if c != '\\' {
            out.push(c);
            assert(s.drop_first() =~= v@.skip(i + 1));
            i += 1;
        } else if i + 1 == v.len() {
            out.push('\\');
            assert(v@.skip(i + 1) =~= Seq::<char>::empty());
            i += 1;
        } else {
            let d = v[i + 1];
            if d == 'n' {
                out.push('\n');
            } else if d == '\\' {
                out.push('\\');
            } else {
                out.push('\\');
                out.push(d);
            }
            assert(s.skip(2) =~= v@.skip(i + 2));
            i += 2;
        }
        assert(out@ + unescape(v@.skip(i as int)) =~= before + unescape(s));
    }
    assert(v@.skip(i as int) =~= Seq::<char>::empty());
    assert(out@ + Seq::<char>::empty() =~= out@);
    out
}

/// How many lines from the start of `lines` belong to a block of paths.
pub open spec fn path_run(lines: Seq<Seq<char>>) -> nat
    decreases lines.len(),
{
    if lines.len() > 0 && path_item_prefix().is_prefix_of(trim_cr(lines[0])) {
        1 + path_run(lines.drop_first())
    } else {
        0
    }
}

/// A block of paths takes no more lines than there are.
pub proof fn lemma_path_run_len(lines: Seq<Seq<char>>)
    ensures
        path_run(lines) <= lines.len(),
    decreases lines.len(),
{
    if lines.len() > 0 {
        lemma_path_run_len(lines.drop_first());
    }
}

/// The timestamp of an entry whose `- cmd:` line is followed by `lines`,
/// when `ts` is the timestamp read so far, and how many lines after the
/// `- cmd:` line belong to the entry: `  when:` lines (the last one sets the
/// timestamp, to `None` when its text is no number) and `  paths:` blocks,
/// up to the first line that is neither.
pub open spec fn fish_meta(lines: Seq<Seq<char>>, ts: Option<i64>) -> (Option<i64>, nat)
    decreases lines.len(),
{
    if lines.len() == 0 {
        (ts, 0)
    } else {
        let l = trim_cr(lines[0]);
        if when_prefix().is_prefix_of(l) {
            let (t, n) = fish_meta(lines.drop_first(), spec_parse_i64(trim_ws(l.skip(8))));
            (t, n + 1)
        } else if l == paths_line() {
            let k = path_run(lines.drop_first());
            proof {
                lemma_path_run_len(lines.drop_first());
            }
            let (t, n) = fish_meta(lines.drop_first().skip(k as int), ts);
            (t, n + 1 + k)
        } else {
            (ts, 0)
        }
    }
}

/// An entry's lines never run past the end.
pub proof fn lemma_fish_meta_len(lines: Seq<Seq<char>>, ts: Option<i64>)
    ensures
        fish_meta(lines, ts).1 <= lines.len(),
    decreases lines.len(),
{
    if lines.len() > 0 {
        let l = trim_cr(lines[0]);
        if when_prefix().is_prefix_of(l) {
            lemma_fish_meta_len(lines.drop_first(), spec_parse_i64(trim_ws(l.skip(8))));
        } else if l == paths_line() {
            let k = path_run(lines.drop_first());
            lemma_path_run_len(lines.drop_first());
            lemma_fish_meta_len(lines.drop_first().skip(k as int), ts);
        }
    }
}

/// The entries that the lines `lines` hold: each `- cmd:` line starts one,
/// with its command unescaped; every line outside an entry is ignored.
pub open spec fn fish_entries(lines: Seq<Seq<char>>) -> Seq<EntryView>
    decreases lines.len(),
{
    if lines.len() == 0 {
        seq![]
    } else {
        let line = trim_cr(lines[0]);
        let rest = lines.drop_first();
        if cmd_prefix().is_prefix_of(line) {
            let (ts, n) = fish_meta(rest, None);
            proof {
                lemma_fish_meta_len(rest, None);
            }
            seq![(unescape(line.skip(7)), ts)] + fish_entries(rest.skip(n as int))
        } else {
            fish_entries(rest)
        }
    }
}

/// The entries of the fish history `s`.
pub open spec fn spec_parse_fish(s: Seq<char>) -> Seq<EntryView> {
    fish_entries(lines_of(s))
}

/// Parses a fish `fish_history` file.
///
/// Fish stores history as a flat, line-oriented format that only looks like
/// YAML. Each entry starts with `- cmd: <escaped command>`, optionally
/// followed by a `  when: <epoch seconds>` line and a `  paths:` block
/// listing files fish associated with the command (used for its own
/// autocomplete bookkeeping, irrelevant here, so it's skipped). Within the
/// command text fish escapes a literal backslash as `\\` and a literal
/// newline as `\n`; those are undone here rather than left for the caller
/// to deal with. Lines that aren't part of a `- cmd:` entry are ignored.
pub fn parse(input: &str) -> (es: Vec<HistoryEntry>)
    ensures
        entries_view(es@) == spec_parse_fish(input@),
{
    let mut it = iter(input);
    let mut out: Vec<HistoryEntry> = Vec::new();
    loop
        invariant
            entries_view(out@) + it.remaining() == spec_parse_fish(input@),
        ensures
            entries_view(out@) == spec_parse_fish(input@),
        decreases it.remaining().len(),
    {
        let ghost before = it.remaining();
        match it.next() {
            Some(e) => {
                out.push(e);
                assert(entries_view(out@) + it.remaining() =~= spec_parse_fish(input@));
            },
            None => {
                assert(entries_view(out@) =~= entries_view(out@) + before);
                break ;
            },
        }
    }
    out
}

/// Like [`parse`], but yields entries one at a time instead of collecting
/// them into a `Vec` up front. Lets a caller stop early or process a history
/// file too large to want fully materialized in memory.
pub fn iter(input: &str) -> (it: FishHistory)
    ensures
        it.remaining() == spec_parse_fish(input@),
{
    FishHistory { lines: LineCursor::new(input) }
}

/// The entries of a fish history, read one at a time by [`FishHistory::next`].
pub struct FishHistory {
    lines: LineCursor,
}

impl FishHistory {
    /// The entries still to come.
    pub closed spec fn remaining(self) -> Seq<EntryView> {
        fish_entries(self.lines.rest())
    }

    /// Moves past the block of path lines at the cursor.
    fn skip_paths(&mut self)
        ensures
            final(self).lines.rest() == old(self).lines.rest().skip(
                path_run(old(self).lines.rest()) as int,
            ),
    {
        let ghost start = self.lines.rest();
        let ghost mut j: int = 0;
        let item = vec![' ', ' ', ' ', ' ', '-', ' '];
        assert(start.skip(0) =~= start);
        proof {
            lemma_path_run_len(start);
        }
        loop
            invariant_except_break
                0 <= j <= path_run(start),
                self.lines.rest() == start.skip(j),
                path_run(start.skip(j)) == path_run(start) - j,
            invariant
                start == old(self).lines.rest(),
                item@ == path_item_prefix(),
                path_run(start) <= start.len(),
            ensures
                self.lines.rest() == start.skip(path_run(start) as int),
            decreases self.lines.rest().len(),
        {
            let mut line = match self.lines.peek_line() {
                Some(l) => l,
                None => {
                    break ;
                },
            };
            strip_cr(&mut line);
            if !has_prefix(&line, &item) {
                break ;
            }
            self.lines.next_line();
            proof {
                assert(start.skip(j).drop_first() =~= start.skip(j + 1));
                j = j + 1;
            }
        }
    }

    /// The next entry, or `None` once the history is exhausted.
    pub fn next(&mut self) -> (r: Option<HistoryEntry>)
        ensures
            reader_step(old(self).remaining(), final(self).remaining(), r),
    {
        let cmd_tag = vec!['-', ' ', 'c', 'm', 'd', ':', ' '];
        let when_tag = vec![' ', ' ', 'w', 'h', 'e', 'n', ':', ' '];
        let paths_tag = vec![' ', ' ', 'p', 'a', 't', 'h', 's', ':'];
        loop
            invariant
                fish_entries(self.lines.rest()) == old(self).remaining(),
                cmd_tag@ == cmd_prefix(),
                when_tag@ == when_prefix(),
                paths_tag@ == paths_line(),
            decreases self.lines.rest().len(),
        {
            let ghost all = self.lines.rest();
            let mut line = match self.lines.next_line() {
                Some(raw) => raw,
                None => {
                    return None;
                },
            };
            strip_cr(&mut line);
            if !has_prefix(&line, &cmd_tag) {
                continue ;
            }
            let command = unescape_from(&line, 7);
            let mut timestamp: Option<i64> = None;
            let ghost tail = self.lines.rest();
            let ghost target = fish_meta(tail, None);
            let ghost mut k: int = 0;
            assert(tail.skip(0) =~= tail);
            proof {
                lemma_fish_meta_len(tail, None);
            }
            loop
                invariant_except_break
                    0 <= k <= target.1,
                    self.lines.rest() == tail.skip(k),
                    fish_meta(tail.skip(k), timestamp) == (target.0, (target.1 - k) as nat),
                invariant
                    tail == all.drop_first(),
                    target == fish_meta(tail, None),
                    target.1 <= tail.len(),
                    when_tag@ == when_prefix(),
                    paths_tag@ == paths_line(),
                ensures
                    timestamp == target.0,
                    self.lines.rest() == tail.skip(target.1 as int),
                decreases self.lines.rest().len(),
            {
                let ghost x = tail.skip(k);
                let mut next = match self.lines.peek_line() {
                    Some(l) => l,
                    None => {
                        break ;
                    },
                };
                strip_cr(&mut next);
                if has_prefix(&next, &when_tag) {
                    let (lo, hi) = trimmed_bounds(&next, 8);
                    timestamp = parse_i64(&next, lo, hi);
                    self.lines.next_line();
                    proof {
                        assert(x.drop_first() =~= tail.skip(k + 1));
                        k = k + 1;
                    }
                } else if next.len() == 8 && has_prefix(&next, &paths_tag) {
                    assert(next@ =~= paths_line());
                    self.lines.next_line();
                    let ghost ptail = self.lines.rest();
                    self.skip_paths();
                    proof {
                        let pr = path_run(ptail);
                        lemma_path_run_len(ptail);
                        assert(ptail == x.drop_first());
                        assert(ptail.skip(pr as int) =~= tail.skip(k + 1 + pr));
                        k = k + 1 + pr;
                    }
                } else {
                    break ;
                }
            }
            let e = make_entry(&command, timestamp);
            proof {
                assert(fish_entries(all).drop_first() =~= fish_entries(self.lines.rest()));
            }
            return Some(e);
        }
    }
}


/// How one character of a command is escaped: a backslash as `\\`, a line
/// break as `\n`.
pub open spec fn escape_char(c: char) -> Seq<char> {
    if c == '\\' {
        seq!['\\', '\\']
    } else if c == '\n' {
        seq!['\\', 'n']
    } else {
        seq![c]
    }
}

/// A command escaped as fish writes it.
pub open spec fn escape(c: Seq<char>) -> Seq<char>
    decreases c.len(),
{
    if c.len() == 0 {
        seq![]
    } else {
        escape(c.drop_last()) + escape_char(c.last())
    }
}

/// How one entry is written: its `- cmd:` line, then a `  when:` line when
/// it has a timestamp.
pub open spec fn fish_entry_text(e: EntryView) -> Seq<char> {
    cmd_prefix() + escape(e.0) + seq!['\n'] + match e.1 {
        Some(t) => when_prefix() + i64_text(t) + seq!['\n'],
        None => seq![],
    }
}

/// `fish_entry_text` as a value.
pub open spec fn fish_text() -> spec_fn(EntryView) -> Seq<char> {
    |e: EntryView| fish_entry_text(e)
}

/// The fish history text that `es` is written as.
pub open spec fn spec_write_fish(es: Seq<EntryView>) -> Seq<char> {
    concat_texts(es, fish_text())
}

/// Appends `cs` to `out`, escaped.
fn push_escaped(out: &mut String, cs: &Vec<char>)
    ensures
        final(out)@ == old(out)@ + escape(cs@),
{
    let ghost start = out@;
    let mut i: usize = 0;
    assert(cs@.take(0) =~= Seq::<char>::empty());
    while i < cs.len()
        invariant
            i <= cs.len(),
            out@ == start + escape(cs@.take(i as int)),
        decreases cs.len() - i,
    {
        let c = cs[i];
        if c == '\\' {
            push_char(out, '\\');
            push_char(out, '\\');
        } else if c == '\n' {
            push_char(out, '\\');
            push_char(out, 'n');
        } else {
            push_char(out, c);
        }
        assert(cs@.take(i + 1).drop_last() =~= cs@.take(i as int));
        i += 1;
        assert(out@ =~= start + escape(cs@.take(i as int)));
    }
    assert(cs@.take(i as int) =~= cs@);
}

/// Serializes `entries` as fish history text: a `- cmd:` line with the
/// command escaped, then a `  when:` line for an entry with a timestamp.
/// No `paths:` block is written, since an entry has nowhere to keep one.
pub fn write(entries: &[HistoryEntry]) -> (s: String)
    ensures
        s@ == spec_write_fish(entries_view(entries@)),
{
    let ghost es = entries_view(entries@);
    let cmd_tag = vec!['-', ' ', 'c', 'm', 'd', ':', ' '];
    let when_tag = vec![' ', ' ', 'w', 'h', 'e', 'n', ':', ' '];
    let mut out = String::new();
    let mut i: usize = 0;
    while i < entries.len()
        invariant
            i <= entries.len(),
            es == entries_view(entries@),
            cmd_tag@ == cmd_prefix(),
            when_tag@ == when_prefix(),
            out@ == concat_texts(es.take(i as int), fish_text()),
        decreases entries.len() - i,
    {
        let e = &entries[i];
        let ghost before = out@;
        push_chars(&mut out, &cmd_tag);
        let cs = chars_of(e.command.as_str());
        push_escaped(&mut out, &cs);
        push_char(&mut out, '\n');
        match e.timestamp {
            Some(t) => {
                push_chars(&mut out, &when_tag);
                push_i64(&mut out, t);
                push_char(&mut out, '\n');
            },
            None => {},
        }
        proof {
            lemma_concat_texts_take(es, fish_text(), i as int);
            assert(es[i as int] == e@);
            assert(out@ =~= before + fish_entry_text(e@));
        }
        i += 1;
    }
    assert(es.take(i as int) =~= es);
    out
}

/// Escaping distributes over concatenation.
proof fn lemma_escape_concat(a: Seq<char>, b: Seq<char>)
    ensures
        escape(a + b) == escape(a) + escape(b),
    decreases b.len(),
{
    if b.len() == 0 {
        assert(a + b =~= a);
        assert(escape(a) + escape(b) =~= escape(a));
    } else {
        lemma_escape_concat(a, b.drop_last());
        assert((a + b).drop_last() =~= a + b.drop_last());
        assert(escape(a + b) =~= escape(a) + escape(b));
    }
}

/// Unescaping undoes escaping, for every command.
pub proof fn lemma_unescape_escape(c: Seq<char>)
    ensures
        unescape(escape(c)) == c,
    decreases c.len(),
{
    if c.len() > 0 {
        let x = c[0];
        let r = c.drop_first();
        lemma_unescape_escape(r);
        assert(c =~= seq![x] + r);
        lemma_escape_concat(seq![x], r);
        assert(seq![x].drop_last() =~= Seq::<char>::empty());
        assert(escape(Seq::<char>::empty()) == Seq::<char>::empty());
        assert(escape(seq![x]) =~= escape_char(x));
        let e = escape(c);
        assert(e =~= escape_char(x) + escape(r));
        if x == '\\' || x == '\n' {
            assert(e.skip(2) =~= escape(r));
        } else {
            assert(e.drop_first() =~= escape(r));
        }
    } else {
        assert(escape(c) == Seq::<char>::empty());
    }
}

/// An escaped command holds no line break, and ends in a carriage return
/// only when the command does.
pub proof fn lemma_escape_shape(c: Seq<char>)
    ensures
        no_newline(escape(c)),
        escape(c).len() == 0 <==> c.len() == 0,
        c.len() > 0 && c.last() != '\r' ==> escape(c).last() != '\r',
    decreases c.len(),
{
    if c.len() > 0 {
        lemma_escape_shape(c.drop_last());
        let e = escape(c);
        let p = escape(c.drop_last());
        assert forall|i: int| 0 <= i < e.len() implies #[trigger] e[i] != '\n' by {
            if i < p.len() {
                assert(e[i] == p[i]);
            }
        }
    }
}

/// A command a fish history can carry unchanged: any that does not end in a
/// carriage return, which reading would trim.
pub open spec fn fish_writable(e: EntryView) -> bool {
    e.0.len() == 0 || e.0.last() != '\r'
}

/// Carriage returns trimmed off the end leave a prefix that ends in
/// something else in place.
proof fn lemma_trim_cr_keeps_prefix(s: Seq<char>, p: Seq<char>)
    requires
        p.is_prefix_of(s),
        p.len() > 0,
        p.last() != '\r',
    ensures
        p.is_prefix_of(trim_cr(s)),
    decreases s.len(),
{
    if s.len() > 0 && s.last() == '\r' {
        assert(s.len() > p.len()) by {
            if s.len() == p.len() {
                assert(s[s.len() - 1] == p[p.len() - 1]);
            }
        }
        assert(p.is_prefix_of(s.drop_last())) by {
            assert(s.drop_last().subrange(0, p.len() as int) =~= s.subrange(0, p.len() as int));
        }
        lemma_trim_cr_keeps_prefix(s.drop_last(), p);
    }
}

/// The lines that follow a written entry end its block: they are either
/// none, or start the next entry.
proof fn lemma_meta_stops(w: Seq<char>, ts: Option<i64>)
    requires
        w.len() == 0 || cmd_prefix().is_prefix_of(w),
    ensures
        fish_meta(lines_of(w), ts) == (ts, 0nat),
{
    let lines = lines_of(w);
    if w.len() > 0 {
        let k = crate::text::char_pos(w, '\n');
        crate::text::lemma_char_pos(w, '\n');
        assert(k >= 7) by {
            if k < 7 {
                assert(w[k as int] == cmd_prefix()[k as int]);
            }
        }
        let first = lines[0];
        assert(cmd_prefix().is_prefix_of(first)) by {
            if k < w.len() {
                assert(first == w.take(k as int));
                assert(first.subrange(0, 7) =~= w.subrange(0, 7));
            } else {
                assert(first == w);
            }
        }
        lemma_trim_cr_keeps_prefix(first, cmd_prefix());
        let l = trim_cr(first);
        assert(l[0] == '-');
        assert(!when_prefix().is_prefix_of(l)) by {
            assert(when_prefix()[0] != l[0]);
            if when_prefix().is_prefix_of(l) {
                assert(l.subrange(0, 8)[0] == l[0]);
            }
        }
        assert(l != paths_line()) by {
            assert(paths_line()[0] == ' ');
        }
    }
}

/// A written `  when:` line, followed by text `w` that is empty or starts
/// another entry, sets the timestamp and ends the entry.
#[verifier::spinoff_prover]
#[verifier::rlimit(40)]
proof fn lemma_when_line(t: i64, w: Seq<char>)
    requires
        w.len() == 0 || cmd_prefix().is_prefix_of(w),
    ensures
        fish_meta(lines_of(when_prefix() + i64_text(t) + seq!['\n'] + w), None) == (
            Some(t),
            1nat,
        ),
        lines_of(when_prefix() + i64_text(t) + seq!['\n'] + w).drop_first() == lines_of(w),
{
    let d = i64_text(t);
    let stamp = when_prefix() + d;
    lemma_i64_text_chars(t);
    lemma_parse_i64_text(t);
    lemma_meta_stops(w, Some(t));
    assert(no_newline(stamp)) by {
        assert forall|i: int| 0 <= i < stamp.len() implies #[trigger] stamp[i] != '\n' by {
            if i >= 8 {
                assert(stamp[i] == d[i - 8]);
            }
        }
    }
    lemma_lines_cons(stamp, w);
    let rest = lines_of(stamp + seq!['\n'] + w);
    assert(rest[0] == stamp);
    assert(stamp.last() == d.last());
    assert(trim_cr(stamp) == stamp);
    assert(when_prefix().is_prefix_of(stamp)) by {
        assert(stamp.subrange(0, 8) =~= when_prefix());
    }
    assert(stamp.skip(8) =~= d);
    lemma_i64_text_trimmed(t);
    assert(rest.drop_first() =~= lines_of(w));
    assert(fish_meta(rest, None) == (fish_meta(lines_of(w), Some(t)).0, fish_meta(lines_of(w), Some(t)).1 + 1));
}

/// The decimal text of a number has no white space to trim.
proof fn lemma_i64_text_trimmed(t: i64)
    ensures
        trim_ws(i64_text(t)) == i64_text(t),
{
    let d = i64_text(t);
    lemma_i64_text_chars(t);
    assert(!crate::text::is_ws(d[0]));
    assert(crate::text::trim_start_ws(d) == d);
    assert(!crate::text::is_ws(d.last()));
    assert(crate::text::trim_end_ws(d) == d);
}

/// One written entry, followed by text `w` that is empty or starts another
/// entry, reads back as that entry followed by what `w` reads as.
proof fn lemma_fish_entry_lines(e: EntryView, w: Seq<char>)
    requires
        fish_writable(e),
        w.len() == 0 || cmd_prefix().is_prefix_of(w),
    ensures
        fish_entries(lines_of(fish_entry_text(e) + w)) == seq![e] + fish_entries(lines_of(w)),
{
    let cmd = e.0;
    let esc = escape(cmd);
    let line = cmd_prefix() + esc;
    lemma_escape_shape(cmd);
    lemma_unescape_escape(cmd);
    assert(no_newline(line)) by {
        assert forall|i: int| 0 <= i < line.len() implies #[trigger] line[i] != '\n' by {
            if i >= 7 {
                assert(line[i] == esc[i - 7]);
            }
        }
    }
    assert(line.last() != '\r') by {
        if cmd.len() > 0 {
            assert(line.last() == esc.last());
        }
    }
    assert(trim_cr(line) == line);
    assert(cmd_prefix().is_prefix_of(line)) by {
        assert(line.subrange(0, 7) =~= cmd_prefix());
    }
    assert(line.skip(7) =~= esc);
    let after = match e.1 {
        Some(t) => when_prefix() + i64_text(t) + seq!['\n'],
        None => seq![],
    };
    let text = fish_entry_text(e) + w;
    assert(text =~= line + seq!['\n'] + (after + w));
    lemma_lines_cons(line, after + w);
    let lines = lines_of(text);
    assert(lines[0] == line);
    assert(lines.drop_first() == lines_of(after + w));
    match e.1 {
        Some(t) => {
            assert(after + w =~= when_prefix() + i64_text(t) + seq!['\n'] + w);
            lemma_when_line(t, w);
            assert(lines.drop_first().skip(1) =~= lines_of(w));
        },
        None => {
            lemma_meta_stops(w, None);
            assert(after + w =~= w);
            assert(lines.drop_first().skip(0) =~= lines_of(w));
        },
    }
}

/// Reading back what [`write`] wrote gives the same entries, for every
/// entry that fish history can carry.
pub proof fn lemma_fish_round_trip(es: Seq<EntryView>)
    requires
        forall|i: int| 0 <= i < es.len() ==> fish_writable(#[trigger] es[i]),
    ensures
        spec_parse_fish(spec_write_fish(es)) == es,
    decreases es.len(),
{
    if es.len() > 0 {
        let rest = es.drop_first();
        assert forall|i: int| 0 <= i < rest.len() implies fish_writable(#[trigger] rest[i]) by {
            assert(rest[i] == es[i + 1]);
        }
        lemma_fish_round_trip(rest);
        lemma_concat_texts_first(es, fish_text());
        let w = spec_write_fish(rest);
        if rest.len() > 0 {
            lemma_concat_texts_first(rest, fish_text());
            assert(cmd_prefix().is_prefix_of(w)) by {
                assert(w.subrange(0, 7) =~= cmd_prefix());
            }
        } else {
            assert(w == Seq::<char>::empty());
        }
        lemma_fish_entry_lines(es[0], w);
        assert(seq![es[0]] + rest =~= es);
    } else {
        assert(spec_write_fish(es) == Seq::<char>::empty());
    }
}


/// Unescaped text ends in a carriage return only when the escaped text does.
proof fn lemma_unescape_end(s: Seq<char>)
    requires
        s.len() == 0 || s.last() != '\r',
    ensures
        fish_writable((unescape(s), None)),
    decreases s.len(),
{
    if s.len() > 0 {
        if s[0] != '\\' {
            let r = s.drop_first();
            if r.len() > 0 {
                assert(r.last() == s.last());
            }
            lemma_unescape_end(r);
            if unescape(r).len() > 0 {
                assert((seq![s[0]] + unescape(r)).last() == unescape(r).last());
            } else {
                assert(r.len() == 0) by {
                    if r.len() > 0 {
                        lemma_unescape_nonempty(r);
                    }
                }
                assert(s[0] == s.last());
            }
        } else if s.len() >= 2 {
            let r = s.skip(2);
            if r.len() > 0 {
                assert(r.last() == s.last());
            }
            lemma_unescape_end(r);
            let head = if s[1] == 'n' {
                seq!['\n']
            } else if s[1] == '\\' {
                seq!['\\']
            } else {
                seq!['\\', s[1]]
            };
            assert(unescape(s) == head + unescape(r));
            if unescape(r).len() > 0 {
                assert((head + unescape(r)).last() == unescape(r).last());
            } else {
                assert(r.len() == 0) by {
                    if r.len() > 0 {
                        lemma_unescape_nonempty(r);
                    }
                }
                assert(s[1] == s.last());
            }
        }
    }
}

/// Unescaping keeps text nonempty.
proof fn lemma_unescape_nonempty(s: Seq<char>)
    requires
        s.len() > 0,
    ensures
        unescape(s).len() > 0,
{
}

/// Every entry that fish history lines yield can be written back unchanged.
proof fn lemma_fish_entries_writable(lines: Seq<Seq<char>>)
    ensures
        forall|i: int|
            0 <= i < fish_entries(lines).len() ==> fish_writable(#[trigger] fish_entries(lines)[i]),
    decreases lines.len(),
{
    if lines.len() > 0 {
        let line = trim_cr(lines[0]);
        let rest = lines.drop_first();
        if cmd_prefix().is_prefix_of(line) {
            let (ts, n) = fish_meta(rest, None);
            lemma_fish_meta_len(rest, None);
            lemma_fish_entries_writable(rest.skip(n as int));
            crate::text::lemma_trim_cr(lines[0]);
            let body = line.skip(7);
            if body.len() > 0 {
                assert(body.last() == line.last());
            }
            lemma_unescape_end(body);
            let es = fish_entries(lines);
            assert(es[0].0 == unescape(body));
            assert(fish_writable(es[0]));
            assert forall|i: int| 0 <= i < es.len() implies fish_writable(#[trigger] es[i]) by {
                if i > 0 {
                    assert(es[i] == fish_entries(rest.skip(n as int))[i - 1]);
                }
            }
        } else {
            lemma_fish_entries_writable(rest);
            assert(fish_entries(lines) == fish_entries(rest));
        }
    }
}

/// Rewriting a parsed fish history and parsing it again gives the same
/// entries: `parse(write(parse(s))) == parse(s)` for every text `s`.
pub proof fn lemma_fish_rewrite_stable(s: Seq<char>)
    ensures
        spec_parse_fish(spec_write_fish(spec_parse_fish(s))) == spec_parse_fish(s),
{
    lemma_fish_entries_writable(lines_of(s));
    lemma_fish_round_trip(spec_parse_fish(s));
}


/// The `- cmd:` lines among `lines`, in order, trimmed of trailing carriage
/// returns.
pub open spec fn cmd_lines(lines: Seq<Seq<char>>) -> Seq<Seq<char>>
    decreases lines.len(),
{
    if lines.len() == 0 {
        seq![]
    } else {
        let l = trim_cr(lines[0]);
        if cmd_prefix().is_prefix_of(l) {
            seq![l] + cmd_lines(lines.drop_first())
        } else {
            cmd_lines(lines.drop_first())
        }
    }
}

/// A line starting with a space is no `- cmd:` line.
proof fn lemma_not_cmd(l: Seq<char>)
    requires
        l.len() > 0,
        l[0] == ' ',
    ensures
        !cmd_prefix().is_prefix_of(l),
{
    if cmd_prefix().is_prefix_of(l) {
        assert(l.subrange(0, 7)[0] == l[0]);
    }
}

/// The lines of a block of paths hold no `- cmd:` line.
proof fn lemma_path_run_no_cmd(lines: Seq<Seq<char>>)
    ensures
        cmd_lines(lines.skip(path_run(lines) as int)) == cmd_lines(lines),
    decreases lines.len(),
{
    lemma_path_run_len(lines);
    if lines.len() > 0 && path_item_prefix().is_prefix_of(trim_cr(lines[0])) {
        let l = trim_cr(lines[0]);
        assert(l[0] == ' ') by {
            assert(l.subrange(0, 6)[0] == l[0]);
        }
        lemma_not_cmd(l);
        lemma_path_run_no_cmd(lines.drop_first());
        assert(lines.skip(path_run(lines) as int) =~= lines.drop_first().skip(
            path_run(lines.drop_first()) as int,
        ));
    } else {
        assert(lines.skip(0) =~= lines);
    }
}

/// The lines an entry takes after its `- cmd:` line hold no `- cmd:` line.
proof fn lemma_fish_meta_no_cmd(lines: Seq<Seq<char>>, ts: Option<i64>)
    ensures
        cmd_lines(lines.skip(fish_meta(lines, ts).1 as int)) == cmd_lines(lines),
    decreases lines.len(),
{
    lemma_fish_meta_len(lines, ts);
    if lines.len() == 0 {
        assert(lines.skip(0) =~= lines);
    } else {
        let l = trim_cr(lines[0]);
        let rest = lines.drop_first();
        if when_prefix().is_prefix_of(l) {
            let t2 = spec_parse_i64(trim_ws(l.skip(8)));
            assert(l[0] == ' ') by {
                assert(l.subrange(0, 8)[0] == l[0]);
            }
            lemma_not_cmd(l);
            lemma_fish_meta_no_cmd(rest, t2);
            assert(lines.skip(fish_meta(lines, ts).1 as int) =~= rest.skip(
                fish_meta(rest, t2).1 as int,
            ));
        } else if l == paths_line() {
            lemma_not_cmd(l);
            let k = path_run(rest);
            lemma_path_run_len(rest);
            lemma_path_run_no_cmd(rest);
            let after = rest.skip(k as int);
            lemma_fish_meta_no_cmd(after, ts);
            assert(lines.skip(fish_meta(lines, ts).1 as int) =~= after.skip(
                fish_meta(after, ts).1 as int,
            ));
        } else {
            assert(lines.skip(0) =~= lines);
        }
    }
}

/// Fish history lines yield one entry for each `- cmd:` line, in order,
/// whose command is that line's text unescaped; no other line yields one.
pub proof fn lemma_fish_entry_per_cmd_line(lines: Seq<Seq<char>>)
    ensures
        fish_entries(lines).len() == cmd_lines(lines).len(),
        forall|k: int|
            0 <= k < fish_entries(lines).len() ==> #[trigger] fish_entries(lines)[k].0 == unescape(
                cmd_lines(lines)[k].skip(7),
            ),
    decreases lines.len(),
{
    if lines.len() > 0 {
        let line = trim_cr(lines[0]);
        let rest = lines.drop_first();
        if cmd_prefix().is_prefix_of(line) {
            let n = fish_meta(rest, None).1;
            lemma_fish_meta_len(rest, None);
            lemma_fish_meta_no_cmd(rest, None);
            lemma_fish_entry_per_cmd_line(rest.skip(n as int));
            let es = fish_entries(lines);
            assert forall|k: int| 0 <= k < es.len() implies #[trigger] es[k].0 == unescape(
                cmd_lines(lines)[k].skip(7),
            ) by {
                if k > 0 {
                    assert(es[k] == fish_entries(rest.skip(n as int))[k - 1]);
                    assert(cmd_lines(lines)[k] == cmd_lines(rest)[k - 1]);
                }
            }
        } else {
            lemma_fish_entry_per_cmd_line(rest);
        }
    }
}


/// The timestamp that the `  when:` lines of `block` leave, read in order
/// from `ts`: that of the last of them, or `ts` when there is none.
pub open spec fn last_when(block: Seq<Seq<char>>, ts: Option<i64>) -> Option<i64>
    decreases block.len(),
{
    if block.len() == 0 {
        ts
    } else {
        let l = trim_cr(block.last());
        if when_prefix().is_prefix_of(l) {
            spec_parse_i64(trim_ws(l.skip(8)))
        } else {
            last_when(block.drop_last(), ts)
        }
    }
}

/// Reading two blocks one after the other.
proof fn lemma_last_when_concat(a: Seq<Seq<char>>, b: Seq<Seq<char>>, ts: Option<i64>)
    ensures
        last_when(a + b, ts) == last_when(b, last_when(a, ts)),
    decreases b.len(),
{
    if b.len() == 0 {
        assert(a + b =~= a);
    } else {
        lemma_last_when_concat(a, b.drop_last(), ts);
        assert((a + b).drop_last() =~= a + b.drop_last());
        assert((a + b).last() == b.last());
    }
}

/// A block of paths holds no `  when:` line.
proof fn lemma_last_when_paths(lines: Seq<Seq<char>>, ts: Option<i64>)
    ensures
        last_when(lines.take(path_run(lines) as int), ts) == ts,
    decreases lines.len(),
{
    lemma_path_run_len(lines);
    if lines.len() > 0 && path_item_prefix().is_prefix_of(trim_cr(lines[0])) {
        let l = trim_cr(lines[0]);
        assert(!when_prefix().is_prefix_of(l)) by {
            assert(l.subrange(0, 6)[2] == l[2]);
            if when_prefix().is_prefix_of(l) {
                assert(l.subrange(0, 8)[2] == l[2]);
            }
        }
        lemma_last_when_paths(lines.drop_first(), ts);
        let k = path_run(lines);
        assert(lines.take(k as int) =~= seq![lines[0]] + lines.drop_first().take(k - 1));
        lemma_last_when_concat(seq![lines[0]], lines.drop_first().take(k - 1), ts);
        assert(seq![lines[0]].drop_last() =~= Seq::<Seq<char>>::empty());
        assert(seq![lines[0]].last() == lines[0]);
        assert(last_when(Seq::<Seq<char>>::empty(), ts) == ts);
        assert(last_when(seq![lines[0]], ts) == ts);
    } else {
        assert(lines.take(0) =~= Seq::<Seq<char>>::empty());
    }
}

/// The timestamp of an entry is that of the last `  when:` line among the
/// lines it takes after its `- cmd:` line, or `ts` when there is none.
pub proof fn lemma_fish_timestamp_last_when(lines: Seq<Seq<char>>, ts: Option<i64>)
    ensures
        fish_meta(lines, ts).0 == last_when(lines.take(fish_meta(lines, ts).1 as int), ts),
    decreases lines.len(),
{
    lemma_fish_meta_len(lines, ts);
    if lines.len() == 0 {
        assert(lines.take(0) =~= Seq::<Seq<char>>::empty());
    } else {
        let l = trim_cr(lines[0]);
        let rest = lines.drop_first();
        let head = seq![lines[0]];
        assert(head.drop_last() =~= Seq::<Seq<char>>::empty());
        assert(head.last() == lines[0]);
        if when_prefix().is_prefix_of(l) {
            let t2 = spec_parse_i64(trim_ws(l.skip(8)));
            let n = fish_meta(rest, t2).1;
            lemma_fish_meta_len(rest, t2);
            lemma_fish_timestamp_last_when(rest, t2);
            assert(lines.take(n + 1int) =~= head + rest.take(n as int));
            lemma_last_when_concat(head, rest.take(n as int), ts);
            assert(last_when(head, ts) == t2);
        } else if l == paths_line() {
            let k = path_run(rest);
            lemma_path_run_len(rest);
            let after = rest.skip(k as int);
            let n = fish_meta(after, ts).1;
            lemma_fish_meta_len(after, ts);
            lemma_fish_timestamp_last_when(after, ts);
            lemma_last_when_paths(rest, ts);
            assert(!when_prefix().is_prefix_of(l)) by {
                if when_prefix().is_prefix_of(l) {
                    assert(l.subrange(0, 8)[2] == l[2]);
                }
            }
            assert(last_when(Seq::<Seq<char>>::empty(), ts) == ts);
            assert(last_when(head, ts) == ts);
            assert(lines.take((1 + k + n) as int) =~= head + (rest.take(k as int) + after.take(n as int)));
            lemma_last_when_concat(rest.take(k as int), after.take(n as int), ts);
            lemma_last_when_concat(head, rest.take(k as int) + after.take(n as int), ts);
        } else {
            assert(lines.take(0) =~= Seq::<Seq<char>>::empty());
        }
    }
}


/// Fish escapes exactly two characters: a command is written with each
/// backslash doubled and each line break written as `\n`, every other
/// character kept as it is, in order. So a command with neither is written
/// unchanged after `- cmd: `.
pub proof fn lemma_escape_exact(x: char, c: Seq<char>)
    ensures
        escape(seq![x] + c) == (if x == '\\' {
            seq!['\\', '\\']
        } else if x == '\n' {
            seq!['\\', 'n']
        } else {
            seq![x]
        }) + escape(c),
        escape(Seq::<char>::empty()) == Seq::<char>::empty(),
        (forall|i: int| 0 <= i < c.len() ==> #[trigger] c[i] != '\\' && c[i] != '\n') ==> escape(c)
            == c,
{
    lemma_escape_concat(seq![x], c);
    assert(seq![x].drop_last() =~= Seq::<char>::empty());
    assert(seq![x].last() == x);
    assert(escape(Seq::<char>::empty()) == Seq::<char>::empty());
    assert(escape(seq![x]) =~= escape_char(x));
    if forall|i: int| 0 <= i < c.len() ==> #[trigger] c[i] != '\\' && c[i] != '\n' {
        lemma_escape_plain(c);
    }
}

/// A command with no backslash and no line break is escaped as itself.
proof fn lemma_escape_plain(c: Seq<char>)
    requires
        forall|i: int| 0 <= i < c.len() ==> #[trigger] c[i] != '\\' && c[i] != '\n',
    ensures
        escape(c) == c,
    decreases c.len(),
{
    if c.len() > 0 {
        assert forall|i: int| 0 <= i < c.drop_last().len() implies #[trigger] c.drop_last()[i]
            != '\\' && c.drop_last()[i] != '\n' by {
            assert(c.drop_last()[i] == c[i]);
        }
        lemma_escape_plain(c.drop_last());
        assert(c.last() == c[c.len() - 1]);
        assert(escape(c) =~= c);
    }
}

/// What [`write`] writes for one entry whose command has no backslash and
/// no line break: `- cmd: ` and the command as it is, then a `  when:` line
/// with the timestamp, if any.
pub proof fn lemma_write_fish_plain(c: Seq<char>, ts: Option<i64>)
    requires
        forall|i: int| 0 <= i < c.len() ==> #[trigger] c[i] != '\\' && c[i] != '\n',
    ensures
        spec_write_fish(seq![(c, ts)]) == seq!['-', ' ', 'c', 'm', 'd', ':', ' '] + c + seq!['\n']
            + match ts {
            Some(t) => seq![' ', ' ', 'w', 'h', 'e', 'n', ':', ' '] + i64_text(t) + seq!['\n'],
            None => Seq::<char>::empty(),
        },
{
    lemma_escape_plain(c);
    let es = seq![(c, ts)];
    assert(es.drop_last() =~= Seq::<EntryView>::empty());
    assert(concat_texts(Seq::<EntryView>::empty(), fish_text()) == Seq::<char>::empty());
    assert(spec_write_fish(es) =~= fish_entry_text((c, ts)));
}

} // verus!
