//! The one shape every dialect is parsed into.

use vstd::prelude::*;
use crate::text::string_from;

verus! {

/// A single command pulled out of a shell history file.
///
/// `timestamp` is a Unix epoch (seconds) when the source format records one.
/// Plain bash history without `HISTTIMESTAMP`, and any line that doesn't
/// carry a parseable timestamp of its own, comes back as `None` rather than
/// a guess.
#[derive(Debug, Clone, PartialEq, Eq)]
pub struct HistoryEntry {
    pub command: String,
    pub timestamp: Option<i64>,
}

/// An entry as a value: the characters of its command, and its timestamp.
pub type EntryView = (Seq<char>, Option<i64>);

impl View for HistoryEntry {
    type V = EntryView;

    open spec fn view(&self) -> EntryView {
        (self.command@, self.timestamp)
    }
}

/// The values of a sequence of entries.
pub open spec fn entries_view(es: Seq<HistoryEntry>) -> Seq<EntryView> {
    es.map_values(|e: HistoryEntry| e@)
}

/// What one step of a history reader does: `r` is the first entry still to
/// come and `after` the rest, or there is nothing left and `r` is `None`.
pub open spec fn reader_step(
    before: Seq<EntryView>,
    after: Seq<EntryView>,
    r: Option<HistoryEntry>,
) -> bool {
    match r {
        None => before.len() == 0 && after.len() == 0,
        Some(e) => {
            &&& before.len() > 0
            &&& e@ == before[0]
            &&& after == before.drop_first()
        },
    }
}

/// An entry with the command `cmd` and timestamp `ts`.
pub(crate) fn make_entry(cmd: &Vec<char>, ts: Option<i64>) -> (e: HistoryEntry)
    ensures
        e@ == (cmd@, ts),
{
    HistoryEntry { command: string_from(cmd), timestamp: ts }
}


/// The texts of `es`, each written by `f`, one after the other.
pub open spec fn concat_texts(es: Seq<EntryView>, f: spec_fn(EntryView) -> Seq<char>) -> Seq<
    char,
>
    decreases es.len(),
{
    if es.len() == 0 {
        seq![]
    } else {
        concat_texts(es.drop_last(), f) + f(es.last())
    }
}

/// `concat_texts` seen from the front: the first entry's text, then the rest.
pub proof fn lemma_concat_texts_first(es: Seq<EntryView>, f: spec_fn(EntryView) -> Seq<char>)
    requires
        es.len() > 0,
    ensures
        concat_texts(es, f) == f(es[0]) + concat_texts(es.drop_first(), f),
    decreases es.len(),
{
    if es.len() == 1 {
        assert(es.drop_last() =~= Seq::<EntryView>::empty());
        assert(es.drop_first() =~= Seq::<EntryView>::empty());
        assert(concat_texts(Seq::<EntryView>::empty(), f) == Seq::<char>::empty());
        assert(concat_texts(es, f) == concat_texts(es.drop_last(), f) + f(es.last()));
        assert(concat_texts(es, f) =~= f(es[0]));
        assert(f(es[0]) + Seq::<char>::empty() =~= f(es[0]));
    } else {
        lemma_concat_texts_first(es.drop_last(), f);
        assert(es.drop_last().drop_first() =~= es.drop_first().drop_last());
        assert(es.drop_first().last() == es.last());
        assert(concat_texts(es, f) =~= f(es[0]) + concat_texts(es.drop_first(), f));
    }
}

/// Appending one entry's text extends `concat_texts` by that text.
pub proof fn lemma_concat_texts_take(es: Seq<EntryView>, f: spec_fn(EntryView) -> Seq<char>, i: int)
    requires
        0 <= i < es.len(),
    ensures
        concat_texts(es.take(i + 1), f) == concat_texts(es.take(i), f) + f(es[i]),
{
    assert(es.take(i + 1).drop_last() =~= es.take(i));
}

} // verus!
