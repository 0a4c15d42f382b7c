//! Character-level helpers shared by the parsers: turning text into
//! characters and back, and the mathematical model of its lines.

use vstd::prelude::*;

verus! {

broadcast use vstd::string::group_string_axioms;

/// The characters of `s`, in order.
pub(crate) fn chars_of(s: &str) -> (v: Vec<char>)
    ensures
        v@ == s@,
{
    let mut v: Vec<char> = Vec::new();
    for c in it: s.chars()
        invariant
            v@ == it.seq().take(it.index()),
            it.seq() == s@,
    {
        v.push(c);
    }
    v
}


/// Appends `c` to `s`, through `String::push`.
///
/// Trusted: `String::push` appends the given `char` to the end of the
/// string; the contract says exactly that of the character view.
#[verifier::external_body]
pub(crate) fn push_char(s: &mut String, c: char)
    ensures
        final(s)@ == old(s)@.push(c),
{
    s.push(c);
}

/// Appends every character of `cs` to `out`.
pub(crate) fn push_chars(out: &mut String, cs: &Vec<char>)
    ensures
        final(out)@ == old(out)@ + cs@,
{
    let ghost start = out@;
    let mut i: usize = 0;
    while i < cs.len()
        invariant
            i <= cs.len(),
            out@ == start + cs@.take(i as int),
        decreases cs.len() - i,
    {
        push_char(out, cs[i]);
        i += 1;
        assert(cs@.take(i as int) =~= cs@.take(i - 1).push(cs@[i - 1]));
    }
    assert(cs@.take(i as int) =~= cs@);
}

/// A `String` holding exactly the characters of `cs`.
pub(crate) fn string_from(cs: &Vec<char>) -> (s: String)
    ensures
        s@ == cs@,
{
    let mut s = String::new();
    push_chars(&mut s, cs);
    s
}

/// The index of the first `c` in `s`, or the length of `s` when there is none.
pub open spec fn char_pos(s: Seq<char>, c: char) -> nat
    decreases s.len(),
{
    if s.len() == 0 {
        0
    } else if s[0] == c {
        0
    } else {
        1 + char_pos(s.drop_first(), c)
    }
}

/// `char_pos` never points past the end, and everything before it differs from `c`.
pub proof fn lemma_char_pos(s: Seq<char>, c: char)
    ensures
        char_pos(s, c) <= s.len(),
        char_pos(s, c) < s.len() ==> s[char_pos(s, c) as int] == c,
        forall|i: int| 0 <= i < char_pos(s, c) ==> s[i] != c,
    decreases s.len(),
{
    if s.len() > 0 && s[0] != c {
        lemma_char_pos(s.drop_first(), c);
        assert forall|i: int| 0 <= i < char_pos(s, c) implies s[i] != c by {
            if i > 0 {
                assert(s[i] == s.drop_first()[i - 1]);
            }
        }
    }
}

/// `char_pos` is the only index with the properties above.
pub proof fn lemma_char_pos_unique(s: Seq<char>, c: char, k: int)
    requires
        0 <= k <= s.len(),
        forall|i: int| 0 <= i < k ==> s[i] != c,
        k == s.len() || s[k] == c,
    ensures
        char_pos(s, c) == k,
    decreases s.len(),
{
    if s.len() > 0 && k > 0 {
        lemma_char_pos_unique(s.drop_first(), c, k - 1);
    }
}

/// The lines of `s`, split at each `'\n'`. A final line ending adds no empty
/// line after it, so `""` has no lines and `"a\n"` has one.
pub open spec fn lines_of(s: Seq<char>) -> Seq<Seq<char>>
    decreases s.len(),
{
    if s.len() == 0 {
        seq![]
    } else {
        let k = char_pos(s, '\n');
        if k >= s.len() {
            seq![s]
        } else {
            seq![s.take(k as int)] + lines_of(s.skip(k + 1 as int))
        }
    }
}

/// `s` holds no line break.
pub open spec fn no_newline(s: Seq<char>) -> bool {
    forall|i: int| 0 <= i < s.len() ==> #[trigger] s[i] != '\n'
}

/// The index of the first `c` in `v` at or after `from`, or the length of `v`.
pub(crate) fn find_char(v: &Vec<char>, from: usize, c: char) -> (r: usize)
    requires
        from <= v.len(),
    ensures
        from <= r <= v.len(),
        char_pos(v@.skip(from as int), c) == r - from,
{
    let mut j = from;
    while j < v.len() && v[j] != c
        invariant
            from <= j <= v.len(),
            forall|i: int| from <= i < j ==> v@[i] != c,
        decreases v.len() - j,
    {
        j += 1;
    }
    let ghost s = v@.skip(from as int);
    assert forall|i: int| 0 <= i < j - from implies s[i] != c by {
        assert(s[i] == v@[from + i]);
    }
    proof {
        lemma_char_pos_unique(s, c, j - from);
    }
    j
}

/// Splitting `a + "\n" + b` where `a` holds no line break gives `a`, then the lines of `b`.
pub proof fn lemma_lines_cons(a: Seq<char>, b: Seq<char>)
    requires
        forall|i: int| 0 <= i < a.len() ==> a[i] != '\n',
    ensures
        lines_of(a + seq!['\n'] + b) == seq![a] + lines_of(b),
{
    let s = a + seq!['\n'] + b;
    lemma_char_pos_unique(s, '\n', a.len() as int);
    assert(s.take(a.len() as int) =~= a);
    assert(s.skip(a.len() + 1int) =~= b);
}

/// No line of `s` holds a line break.
pub proof fn lemma_lines_no_newline(s: Seq<char>)
    ensures
        forall|i: int, j: int|
            0 <= i < lines_of(s).len() && 0 <= j < lines_of(s)[i].len() ==> lines_of(s)[i][j]
                != '\n',
    decreases s.len(),
{
    if s.len() > 0 {
        let k = char_pos(s, '\n');
        lemma_char_pos(s, '\n');
        if k < s.len() {
            lemma_lines_no_newline(s.skip(k + 1 as int));
            assert forall|i: int, j: int|
                0 <= i < lines_of(s).len() && 0 <= j < lines_of(s)[i].len() implies lines_of(
                s,
            )[i][j] != '\n' by {
                if i > 0 {
                    assert(lines_of(s)[i] == lines_of(s.skip(k + 1 as int))[i - 1]);
                }
            }
        }
    }
}


/// A text and a position in it, handing out the text's lines one by one.
pub(crate) struct LineCursor {
    text: Vec<char>,
    pos: usize,
}

impl LineCursor {
    #[verifier::type_invariant]
    spec fn inv(self) -> bool {
        self.pos <= self.text.len()
    }

    /// The lines not yet handed out.
    pub closed spec fn rest(self) -> Seq<Seq<char>> {
        lines_of(self.text@.skip(self.pos as int))
    }

    /// A cursor at the start of `s`.
    pub fn new(s: &str) -> (c: Self)
        ensures
            c.rest() == lines_of(s@),
    {
        let text = chars_of(s);
        assert(text@.skip(0) =~= text@);
        LineCursor { text, pos: 0 }
    }

    /// The end of the line that starts at the cursor: the index of the next
    /// line break, or the end of the text.
    fn line_end(&self) -> (e: usize)
        ensures
            self.pos <= e <= self.text.len(),
            char_pos(self.text@.skip(self.pos as int), '\n') == e - self.pos,
    {
        proof {
            use_type_invariant(self);
        }
        find_char(&self.text, self.pos, '\n')
    }

    /// The characters of `text` from `lo` up to `hi`.
    fn slice(&self, lo: usize, hi: usize) -> (v: Vec<char>)
        requires
            lo <= hi <= self.text.len(),
        ensures
            v@ == self.text@.subrange(lo as int, hi as int),
    {
        let mut v: Vec<char> = Vec::new();
        let mut i = lo;
        while i < hi
            invariant
                lo <= i <= hi <= self.text.len(),
                v@ == self.text@.subrange(lo as int, i as int),
            decreases hi - i,
        {
            v.push(self.text[i]);
            i += 1;
            assert(v@ =~= self.text@.subrange(lo as int, i as int));
        }
        v
    }

    /// The next line, without moving past it.
    pub fn peek_line(&self) -> (r: Option<Vec<char>>)
        ensures
            match r {
                None => self.rest().len() == 0,
                Some(l) => self.rest().len() > 0 && l@ == self.rest()[0],
            },
    {
        proof {
            use_type_invariant(self);
        }
        let ghost s = self.text@.skip(self.pos as int);
        if self.pos == self.text.len() {
            assert(s.len() == 0);
            return None;
        }
        let e = self.line_end();
        let line = self.slice(self.pos, e);
        assert(line@ =~= s.take(e - self.pos));
        if e == self.text.len() {
            assert(s.take(e - self.pos) =~= s);
        }
        Some(line)
    }

    /// The next line; the cursor moves past it.
    pub fn next_line(&mut self) -> (r: Option<Vec<char>>)
        ensures
            match r {
                None => old(self).rest().len() == 0 && final(self).rest() == old(self).rest(),
                Some(l) => {
                    &&& old(self).rest().len() > 0
                    &&& l@ == old(self).rest()[0]
                    &&& final(self).rest() == old(self).rest().drop_first()
                },
            },
    {
        proof {
            use_type_invariant(&*self);
        }
        let ghost s = self.text@.skip(self.pos as int);
        if self.pos == self.text.len() {
            assert(s.len() == 0);
            return None;
        }
        let e = self.line_end();
        let line = self.slice(self.pos, e);
        assert(line@ =~= s.take(e - self.pos));
        if e == self.text.len() {
            assert(s.take(e - self.pos) =~= s);
            self.pos = e;
            assert(self.text@.skip(self.pos as int).len() == 0);
            assert(lines_of(s).drop_first() =~= Seq::<Seq<char>>::empty());
        } else {
            self.pos = e + 1;
            assert(self.text@.skip(self.pos as int) =~= s.skip(e - old(self).pos + 1));
            assert(lines_of(s).drop_first() =~= lines_of(s.skip(e - old(self).pos + 1)));
        }
        Some(line)
    }
}


/// Unicode `White_Space`, the set that `char::is_whitespace` and `str::trim` use.
pub open spec fn is_ws(c: char) -> bool {
    ||| ('\t' <= c && c <= '\r')
    ||| c == ' '
    ||| c == '\u{85}'
    ||| c == '\u{a0}'
    ||| c == '\u{1680}'
    ||| ('\u{2000}' <= c && c <= '\u{200a}')
    ||| c == '\u{2028}'
    ||| c == '\u{2029}'
    ||| c == '\u{202f}'
    ||| c == '\u{205f}'
    ||| c == '\u{3000}'
}

/// Whether `c` is white space.
pub(crate) fn is_whitespace(c: char) -> (b: bool)
    ensures
        b == is_ws(c),
{
    ('\t' <= c && c <= '\r') || c == ' ' || c == '\u{85}' || c == '\u{a0}' || c == '\u{1680}' || (
    '\u{2000}' <= c && c <= '\u{200a}') || c == '\u{2028}' || c == '\u{2029}' || c == '\u{202f}'
        || c == '\u{205f}' || c == '\u{3000}'
}

/// A line that holds nothing but white space (an empty line among them).
pub open spec fn is_blank(s: Seq<char>) -> bool {
    forall|i: int| 0 <= i < s.len() ==> is_ws(#[trigger] s[i])
}

/// Whether `v` is blank.
pub(crate) fn blank(v: &Vec<char>) -> (b: bool)
    ensures
        b == is_blank(v@),
{
    let mut i: usize = 0;
    while i < v.len()
        invariant
            i <= v.len(),
            forall|j: int| 0 <= j < i ==> is_ws(#[trigger] v@[j]),
        decreases v.len() - i,
    {
        if !is_whitespace(v[i]) {
            return false;
        }
        i += 1;
    }
    true
}

/// `s` without its trailing carriage returns.
pub open spec fn trim_cr(s: Seq<char>) -> Seq<char>
    decreases s.len(),
{
    if s.len() > 0 && s.last() == '\r' {
        trim_cr(s.drop_last())
    } else {
        s
    }
}

/// Trimming carriage returns keeps a prefix, and trimming twice is trimming once.
pub proof fn lemma_trim_cr(s: Seq<char>)
    ensures
        trim_cr(s).len() <= s.len(),
        trim_cr(s) == s.take(trim_cr(s).len() as int),
        trim_cr(trim_cr(s)) == trim_cr(s),
        trim_cr(s).len() == 0 || trim_cr(s).last() != '\r',
    decreases s.len(),
{
    if s.len() > 0 && s.last() == '\r' {
        lemma_trim_cr(s.drop_last());
        assert(s.drop_last().take(trim_cr(s).len() as int) =~= s.take(trim_cr(s).len() as int));
    } else {
        assert(s.take(s.len() as int) =~= s);
    }
}

/// Drops the trailing carriage returns of `v`.
pub(crate) fn strip_cr(v: &mut Vec<char>)
    ensures
        final(v)@ == trim_cr(old(v)@),
{
    while v.len() > 0 && v[v.len() - 1] == '\r'
        invariant
            trim_cr(v@) == trim_cr(old(v)@),
        decreases v.len(),
    {
        v.pop();
    }
}

/// `s` without leading white space.
pub open spec fn trim_start_ws(s: Seq<char>) -> Seq<char>
    decreases s.len(),
{
    if s.len() > 0 && is_ws(s[0]) {
        trim_start_ws(s.drop_first())
    } else {
        s
    }
}

/// `s` without trailing white space.
pub open spec fn trim_end_ws(s: Seq<char>) -> Seq<char>
    decreases s.len(),
{
    if s.len() > 0 && is_ws(s.last()) {
        trim_end_ws(s.drop_last())
    } else {
        s
    }
}

/// `s` without white space at either end, as `str::trim` gives it.
pub open spec fn trim_ws(s: Seq<char>) -> Seq<char> {
    trim_end_ws(trim_start_ws(s))
}

/// Bounds `(lo, hi)` such that `v[lo..hi]` is `v[from..]` trimmed of white space.
pub(crate) fn trimmed_bounds(v: &Vec<char>, from: usize) -> (r: (usize, usize))
    requires
        from <= v.len(),
    ensures
        from <= r.0 <= r.1 <= v.len(),
        v@.subrange(r.0 as int, r.1 as int) == trim_ws(v@.skip(from as int)),
{
    let mut lo = from;
    assert(v@.subrange(lo as int, v.len() as int) =~= v@.skip(from as int));
    while lo < v.len() && is_whitespace(v[lo])
        invariant
            from <= lo <= v.len(),
            trim_start_ws(v@.subrange(lo as int, v.len() as int)) == trim_start_ws(
                v@.skip(from as int),
            ),
        decreases v.len() - lo,
    {
        assert(v@.subrange(lo as int, v.len() as int).drop_first() =~= v@.subrange(
            lo + 1,
            v.len() as int,
        ));
        lo += 1;
    }
    let ghost start = v@.subrange(lo as int, v.len() as int);
    assert(trim_start_ws(start) == start);
    let mut hi = v.len();
    while hi > lo && is_whitespace(v[hi - 1])
        invariant
            lo <= hi <= v.len(),
            trim_end_ws(v@.subrange(lo as int, hi as int)) == trim_end_ws(start),
        decreases hi,
    {
        assert(v@.subrange(lo as int, hi as int).drop_last() =~= v@.subrange(
            lo as int,
            hi - 1,
        ));
        hi -= 1;
    }
    (lo, hi)
}

/// Whether `v` starts with `p`.
pub(crate) fn has_prefix(v: &Vec<char>, p: &Vec<char>) -> (b: bool)
    ensures
        b == p@.is_prefix_of(v@),
{
    if p.len() > v.len() {
        return false;
    }
    let mut i: usize = 0;
    while i < p.len()
        invariant
            p.len() <= v.len(),
            i <= p.len(),
            forall|j: int| 0 <= j < i ==> p@[j] == v@[j],
        decreases p.len() - i,
    {
        if p[i] != v[i] {
            assert(p@[i as int] != v@.subrange(0, p@.len() as int)[i as int]);
            return false;
        }
        i += 1;
    }
    assert(p@ =~= v@.subrange(0, p@.len() as int));
    true
}

/// The characters of `v` from `from` onwards.
pub(crate) fn suffix(v: &Vec<char>, from: usize) -> (r: Vec<char>)
    requires
        from <= v.len(),
    ensures
        r@ == v@.skip(from as int),
{
    let mut r: Vec<char> = Vec::new();
    let mut i = from;
    while i < v.len()
        invariant
            from <= i <= v.len(),
            r@ == v@.subrange(from as int, i as int),
        decreases v.len() - i,
    {
        r.push(v[i]);
        i += 1;
        assert(r@ =~= v@.subrange(from as int, i as int));
    }
    assert(r@ =~= v@.skip(from as int));
    r
}

} // verus!
