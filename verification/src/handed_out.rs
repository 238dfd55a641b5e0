//! Entries that are handed out while a store is filled.
use crate::index_csv::{in_share, records_indexed, Share};
use crate::proximity::close_pairs;
use crate::store::{
    fields_written, finished, no_entries, pairs_inserted, record_indexed, word_inserted,
    words_inserted, StoreView, TablesView,
};
use crate::words_positions::record_words;
use vstd::prelude::*;

verus! {

/// Entries followed by others, table by table.
pub open spec fn joined(a: TablesView, b: TablesView) -> TablesView {
    TablesView {
        main: a.main + b.main,
        word_docids: a.word_docids + b.word_docids,
        docid_word_positions: a.docid_word_positions + b.docid_word_positions,
        words_pairs_proximities_docids: a.words_pairs_proximities_docids
            + b.words_pairs_proximities_docids,
        documents: a.documents + b.documents,
    }
}

/// A store as it would be, had it not handed out these entries.
pub open spec fn not_handed_out(out: TablesView, s: StoreView) -> StoreView {
    StoreView { tables: joined(out, s.tables), ..s }
}

/// The documents of a word get one more, whatever was handed out.
proof fn lemma_word(out: TablesView, s: StoreView, word: Seq<u8>, id: u32)
    ensures
        word_inserted(not_handed_out(out, s), word, id) == not_handed_out(
            out,
            word_inserted(s, word, id),
        ),
{
    assert(word_inserted(not_handed_out(out, s), word, id) =~= not_handed_out(
        out,
        word_inserted(s, word, id),
    ));
}

/// The documents of words get one more, whatever was handed out.
proof fn lemma_words(out: TablesView, s: StoreView, words: Seq<(Seq<u8>, Seq<u32>)>, id: u32)
    ensures
        words_inserted(not_handed_out(out, s), words, id) == not_handed_out(
            out,
            words_inserted(s, words, id),
        ),
    decreases words.len(),
{
    if words.len() > 0 {
        let rest = words.drop_last();
        lemma_words(out, s, rest, id);
        lemma_word(out, words_inserted(s, rest, id), words.last().0, id);
    }
}

/// The documents of pairs get one more, whatever was handed out.
proof fn lemma_pairs(out: TablesView, s: StoreView, pairs: Seq<(Seq<u8>, Seq<u8>, u8)>, id: u32)
    ensures
        pairs_inserted(not_handed_out(out, s), pairs, id) == not_handed_out(
            out,
            pairs_inserted(s, pairs, id),
        ),
{
    assert(pairs_inserted(not_handed_out(out, s), pairs, id) =~= not_handed_out(
        out,
        pairs_inserted(s, pairs, id),
    ));
}

/// Handing entries out, at any time, changes nothing but where they are: what is added afterwards
/// comes after them, and is what it would have been.
pub proof fn lemma_handing_out(
    out: TablesView,
    s: StoreView,
    id: u32,
    record: Seq<Seq<char>>,
    names: Seq<Seq<char>>,
)
    ensures
        record_indexed(not_handed_out(out, s), id, record) == not_handed_out(
            out,
            record_indexed(s, id, record),
        ),
        fields_written(not_handed_out(out, s), names) == not_handed_out(
            out,
            fields_written(s, names),
        ),
        finished(not_handed_out(out, s)) == joined(out, finished(s)),
{
    let words = record_words(record);
    let pairs = close_pairs(words);
    lemma_pairs(out, s, pairs, id);
    lemma_words(out, pairs_inserted(s, pairs, id), words, id);
    assert(record_indexed(not_handed_out(out, s), id, record) =~= not_handed_out(
        out,
        record_indexed(s, id, record),
    ));
    assert(fields_written(not_handed_out(out, s), names) =~= not_handed_out(
        out,
        fields_written(s, names),
    ));
    assert(finished(not_handed_out(out, s)) =~= joined(out, finished(s)));
}

/// A share of records is indexed, and the entries are handed out after each document: the store,
/// and what was handed out.
pub open spec fn handed_out(
    s: StoreView,
    records: Seq<Seq<Seq<char>>>,
    share: Share,
) -> (StoreView, TablesView)
    decreases records.len(),
{
    if records.len() == 0 {
        (s, no_entries())
    } else {
        let (t, out) = handed_out(s, records.drop_last(), share);
        let i = records.len() - 1;
        if in_share(share, i) {
            let u = record_indexed(t, (share.base + i) as u32, records.last());
            (StoreView { tables: no_entries(), ..u }, joined(out, u.tables))
        } else {
            (t, out)
        }
    }
}

/// The store, with what it handed out after each document, is the one that handed nothing out.
proof fn lemma_handed_out_so_far(s: StoreView, records: Seq<Seq<Seq<char>>>, share: Share)
    ensures
        records_indexed(s, records, share) == not_handed_out(
            handed_out(s, records, share).1,
            handed_out(s, records, share).0,
        ),
    decreases records.len(),
{
    if records.len() == 0 {
        assert(s =~= not_handed_out(no_entries(), s));
    } else {
        let rest = records.drop_last();
        let (t, out) = handed_out(s, rest, share);
        let i = records.len() - 1;
        let id = (share.base + i) as u32;
        lemma_handed_out_so_far(s, rest, share);
        if in_share(share, i) {
            lemma_handing_out(out, t, id, records.last(), Seq::empty());
            let u = record_indexed(t, id, records.last());
            assert(not_handed_out(out, u) =~= not_handed_out(
                joined(out, u.tables),
                StoreView { tables: no_entries(), ..u },
            ));
        }
    }
}

/// The entries that are handed out after each document, followed by those that are left when the
/// store ends, are those of a store that hands nothing out before its end.
pub proof fn lemma_handed_out(s: StoreView, records: Seq<Seq<Seq<char>>>, share: Share)
    ensures
        joined(
            handed_out(s, records, share).1,
            finished(handed_out(s, records, share).0),
        ) == finished(records_indexed(s, records, share)),
{
    let (t, out) = handed_out(s, records, share);
    lemma_handed_out_so_far(s, records, share);
    lemma_handing_out(out, t, 0, Seq::empty(), Seq::empty());
}

} // verus!
