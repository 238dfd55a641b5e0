//! Indexing the records of a CSV file, each under an id, shared out among threads.
use crate::bytes::{
    ascending, be_bytes, lemma_ascending_distinct, lemma_be_bytes_ordered, lemma_lex_irreflexive,
    lemma_lex_lower_prefix, lemma_lex_same_prefix, lex_lt,
};
use crate::docids::{roaring_bytes, roaring_ids};
use crate::document::{document_bytes, storable};
use crate::fields_ids_map::{distinct_names, fields_of, MAX_FIELDS};
use crate::keys::valid_key;
use crate::proximity::close_pairs;
use crate::store::{
    docids_of, fields_written, finished, has_docid, names_key, pairs_inserted, record_indexed,
    words_inserted, Store, StoreView, Tables, TablesView,
};
use crate::tables::{
    all_intact, all_keys_valid, entries_listing, is_listed, keys_of, position_entries, table_ids,
    DocidsTable, Entries,
};
use crate::words_positions::{
    field_texts, lemma_words_exist, record_words, words_in_order,
};
use vstd::prelude::*;

verus! {

/// Why records could not be indexed.
#[derive(Clone, Copy, PartialEq, Eq, Structural, Debug)]
pub enum IndexError {
    /// There are more fields than ids for them.
    NoMoreFieldId,
    /// The id of a document does not fit in 32 bits.
    DocumentIdTooBig,
}

/// What an error says.
pub open spec fn index_message(error: IndexError) -> Seq<char> {
    match error {
        IndexError::NoMoreFieldId => "no more field id available"@,
        IndexError::DocumentIdTooBig => "generated id is too big"@,
    }
}

impl IndexError {
    /// What the error says.
    pub fn message(&self) -> (message: String)
        ensures
            message@ == index_message(*self),
    {
        match self {
            IndexError::NoMoreFieldId => "no more field id available".to_owned(),
            IndexError::DocumentIdTooBig => "generated id is too big".to_owned(),
        }
    }
}

/// Whether a thread is the one that indexes a document.
pub open spec fn selected(document_id: int, thread_index: int, num_threads: int) -> bool {
    document_id % num_threads == thread_index
}

/// The low 32 bits of a count.
pub open spec fn low_bits(count: int) -> u32 {
    (count % 0x1_0000_0000) as u32
}

/// What is to be done with a record.
#[derive(Clone, Copy, PartialEq, Eq, Structural, Debug)]
pub enum Turn {
    /// Another thread indexes it.
    Skip,
    /// It is to be indexed as a document.
    Index { id: u32 },
    /// It is to be indexed, but its id is too big.
    TooBig,
}

/// What is to be done at a record: the progress to report first, and what to do with the record.
#[derive(Clone, Copy, PartialEq, Eq, Structural, Debug)]
pub struct Step {
    pub progress: Option<u32>,
    pub turn: Turn,
}

/// Where a thread is in the records of a file.
#[derive(Clone, Copy, PartialEq, Eq, Structural, Debug)]
pub struct Cursor {
    /// The id of the first record.
    pub base_document_id: usize,
    /// The id of the next record.
    pub document_id: usize,
    pub thread_index: usize,
    pub num_threads: usize,
    pub log_every_n: usize,
}

/// What is to be done at the next record.
pub open spec fn step_of(cursor: Cursor) -> Step {
    let id = cursor.document_id as int;
    if selected(id, cursor.thread_index as int, cursor.num_threads as int) {
        Step {
            progress: if id % cursor.log_every_n as int == 0 {
                Some(low_bits(id - cursor.base_document_id))
            } else {
                None
            },
            turn: if id <= u32::MAX {
                Turn::Index { id: id as u32 }
            } else {
                Turn::TooBig
            },
        }
    } else {
        Step { progress: None, turn: Turn::Skip }
    }
}

impl Cursor {
    /// A thread before the first record.
    pub fn new(
        base_document_id: usize,
        thread_index: usize,
        num_threads: usize,
        log_every_n: usize,
    ) -> (cursor: Cursor)
        ensures
            cursor == (Cursor {
                base_document_id,
                document_id: base_document_id,
                thread_index,
                num_threads,
                log_every_n,
            }),
    {
        Cursor {
            base_document_id,
            document_id: base_document_id,
            thread_index,
            num_threads,
            log_every_n,
        }
    }

    /// What is to be done at the next record, which is then the one before. The cursor stays
    /// where the id is too big.
    pub fn next(&mut self) -> (step: Step)
        requires
            old(self).base_document_id <= old(self).document_id,
            old(self).num_threads > 0,
            selected(
                old(self).document_id as int,
                old(self).thread_index as int,
                old(self).num_threads as int,
            ) ==> old(self).log_every_n > 0,
            step_of(*old(self)).turn is TooBig || old(self).document_id < usize::MAX,
        ensures
            step == step_of(*old(self)),
            *final(self) == (if step.turn is TooBig {
                *old(self)
            } else {
                Cursor { document_id: (old(self).document_id + 1) as usize, ..*old(self) }
            }),
    {
        let id = self.document_id;
        if id % self.num_threads == self.thread_index {
            let progress = if id % self.log_every_n == 0 {
                Some(self.seen())
            } else {
                None
            };
            if id as u64 <= 0xffff_ffff {
                self.document_id = id + 1;
                Step { progress, turn: Turn::Index { id: id as u32 } }
            } else {
                Step { progress, turn: Turn::TooBig }
            }
        } else {
            self.document_id = id + 1;
            Step { progress: None, turn: Turn::Skip }
        }
    }

    /// The number of records before the next one, in 32 bits.
    pub fn seen(&self) -> (count: u32)
        requires
            self.base_document_id <= self.document_id,
        ensures
            count == low_bits(self.document_id - self.base_document_id),
    {
        ((self.document_id - self.base_document_id) as u64 % 0x1_0000_0000) as u32
    }
}

/// The texts of records.
pub open spec fn record_texts(records: Seq<Vec<String>>) -> Seq<Seq<Seq<char>>> {
    records.map_values(|record: Vec<String>| field_texts(record@))
}

/// A share of the documents: that of one thread among a number of threads.
pub struct Share {
    pub base: int,
    pub thread_index: int,
    pub num_threads: int,
}

/// Whether the record at a place is in a share.
pub open spec fn in_share(share: Share, i: int) -> bool {
    selected(share.base + i, share.thread_index, share.num_threads)
}

/// Whether the record at a place is in a share under an id that is too big.
pub open spec fn too_big(share: Share, i: int) -> bool {
    in_share(share, i) && share.base + i > u32::MAX
}

/// Whether a place is the first among a number of places with an id that is too big.
pub open spec fn first_too_big(share: Share, count: int, i: int) -> bool {
    &&& 0 <= i < count
    &&& too_big(share, i)
    &&& forall|j: int| 0 <= j < i ==> !#[trigger] too_big(share, j)
}

/// A store once a share of the records is indexed.
pub open spec fn records_indexed(
    s: StoreView,
    records: Seq<Seq<Seq<char>>>,
    share: Share,
) -> StoreView
    decreases records.len(),
{
    if records.len() == 0 {
        s
    } else {
        let before = records_indexed(s, records.drop_last(), share);
        let i = records.len() - 1;
        if in_share(share, i) {
            record_indexed(before, (share.base + i) as u32, records.last())
        } else {
            before
        }
    }
}

/// The progress that is reported over a number of records.
pub open spec fn progress_over(share: Share, log_every_n: int, count: int) -> Seq<u32>
    decreases count,
{
    if count <= 0 {
        Seq::empty()
    } else {
        let before = progress_over(share, log_every_n, count - 1);
        if in_share(share, count - 1) && (share.base + count - 1) % log_every_n == 0 {
            before.push(low_bits(count - 1))
        } else {
            before
        }
    }
}

/// Whether a document of a share is to be found under a key of a table.
pub open spec fn is_under(
    table: DocidsTable,
    records: Seq<Seq<Seq<char>>>,
    share: Share,
    key: Seq<u8>,
    id: u32,
) -> bool {
    &&& share.base <= id < share.base + records.len()
    &&& in_share(share, id - share.base)
    &&& names_key(table, record_words(records[id - share.base]), key)
}

/// Whether a document is under a key of a table: the store had it there, or it is in a share.
pub open spec fn is_found(
    s: StoreView,
    table: DocidsTable,
    records: Seq<Seq<Seq<char>>>,
    share: Share,
    key: Seq<u8>,
    id: u32,
) -> bool {
    has_docid(s, table, key, id) || is_under(table, records, share, key, id)
}

/// Whether a key of a table has a document.
pub open spec fn has_document(
    s: StoreView,
    table: DocidsTable,
    records: Seq<Seq<Seq<char>>>,
    share: Share,
    key: Seq<u8>,
) -> bool {
    exists|id: u32| is_found(s, table, records, share, key, id)
}

/// Whether the tables of document ids list under each key that LMDB accepts the documents that the
/// store had there and those of a share, and no others.
pub open spec fn lists_share(
    tables: TablesView,
    s: StoreView,
    records: Seq<Seq<Seq<char>>>,
    share: Share,
) -> bool {
    forall|table: DocidsTable, key: Seq<u8>, id: u32|
        valid_key(key) ==> (#[trigger] is_listed(
            entries_listing(table, docids_of(tables, table)),
            key,
            id,
        ) <==> is_found(s, table, records, share, key, id))
}

/// Whether a share of records can be read and stored: there are threads, the progress is reported
/// every so many documents, and the documents of the share can be stored.
pub open spec fn readable(records: Seq<Seq<Seq<char>>>, share: Share, log_every_n: int) -> bool {
    &&& records.len() > 0 ==> share.num_threads > 0
    &&& forall|i: int|
        0 <= i < records.len() && #[trigger] in_share(share, i) ==> {
            &&& log_every_n > 0
            &&& share.base + i <= u32::MAX ==> storable(records[i])
        }
}

impl Store {
    /// Indexes the records of a file that are in the share of a thread: the progress that is
    /// reported, and the entries of the tables.
    pub fn index_csv(
        self,
        headers: &Vec<String>,
        records: &Vec<Vec<String>>,
        base_document_id: usize,
        thread_index: usize,
        num_threads: usize,
        log_every_n: usize,
    ) -> (indexed: (Vec<u32>, Result<Tables, IndexError>))
        requires
            self.wf(),
            base_document_id + records@.len() <= usize::MAX,
            distinct_names(field_texts(headers@)).len() <= MAX_FIELDS ==> readable(
                record_texts(records@),
                (Share {
                    base: base_document_id as int,
                    thread_index: thread_index as int,
                    num_threads: num_threads as int,
                }),
                log_every_n as int,
            ),
        ensures
            ({
                let names = distinct_names(field_texts(headers@));
                let share = Share {
                    base: base_document_id as int,
                    thread_index: thread_index as int,
                    num_threads: num_threads as int,
                };
                let texts = record_texts(records@);
                let every = log_every_n as int;
                match indexed.1 {
                    Ok(tables) => {
                        let store = records_indexed(fields_written(self@, names), texts, share);
                        &&& names.len() <= MAX_FIELDS
                        &&& forall|i: int| 0 <= i < texts.len() ==> !#[trigger] too_big(share, i)
                        &&& indexed.0@ == progress_over(share, every, texts.len() as int).push(
                            low_bits(texts.len() as int),
                        )
                        &&& tables@ == finished(store)
                        &&& roaring_ids(roaring_bytes(store.documents_ids)) == Some(
                            store.documents_ids,
                        )
                        &&& all_intact(DocidsTable::Words, tables@.word_docids)
                        &&& all_intact(DocidsTable::Pairs, tables@.words_pairs_proximities_docids)
                        &&& all_keys_valid(tables@.docid_word_positions)
                        &&& all_keys_valid(tables@.documents)
                        &&& forall|table: DocidsTable, i: int|
                            0 <= i < docids_of(tables@, table).len() ==> has_document(
                                self@,
                                table,
                                texts,
                                share,
                                (#[trigger] docids_of(tables@, table)[i]).0,
                            )
                        &&& lists_share(tables@, self@, texts, share)
                    },
                    Err(IndexError::NoMoreFieldId) => {
                        &&& names.len() > MAX_FIELDS
                        &&& indexed.0@ == Seq::<u32>::empty()
                    },
                    Err(IndexError::DocumentIdTooBig) => {
                        &&& names.len() <= MAX_FIELDS
                        &&& exists|i: int|
                            #[trigger] first_too_big(share, texts.len() as int, i) && indexed.0@
                                == progress_over(share, every, i + 1)
                    },
                }
            }),
    {
        let ghost names = distinct_names(field_texts(headers@));
        let ghost share = Share {
            base: base_document_id as int,
            thread_index: thread_index as int,
            num_threads: num_threads as int,
        };
        let ghost texts = record_texts(records@);
        let ghost every = log_every_n as int;
        let mut progress: Vec<u32> = Vec::new();
        let mut store = self;
        match fields_of(headers) {
            Some(map) => store.write_fields_ids_map(&map),
            None => return (progress, Err(IndexError::NoMoreFieldId)),
        }
        let ghost start = store@;
        let mut cursor = Cursor::new(base_document_id, thread_index, num_threads, log_every_n);
        let mut i: usize = 0;
        while i < records.len()
            invariant
                i <= records@.len(),
                base_document_id + records@.len() <= usize::MAX,
                texts == record_texts(records@),
                share.base == base_document_id,
                share.thread_index == thread_index,
                share.num_threads == num_threads,
                every == log_every_n,
                readable(texts, share, every),
                cursor.base_document_id == base_document_id,
                cursor.document_id == base_document_id + i,
                cursor.thread_index == thread_index,
                cursor.num_threads == num_threads,
                cursor.log_every_n == log_every_n,
                store.wf(),
                store@ == records_indexed(start, texts.take(i as int), share),
                forall|j: int| 0 <= j < i ==> !#[trigger] too_big(share, j),
                progress@ == progress_over(share, every, i as int),
                forall|table: DocidsTable, key: Seq<u8>, id: u32|
                    valid_key(key) ==> (#[trigger] has_docid(store@, table, key, id) <==> has_docid(
                        start,
                        table,
                        key,
                        id,
                    ) || is_under(table, texts.take(i as int), share, key, id)),
                names.len() <= MAX_FIELDS,
                names == distinct_names(field_texts(headers@)),
            decreases records@.len() - i,
        {
            let ghost before = store@;
            let ghost done = texts.take(i as int);
            let ghost next = texts.take(i + 1);
            proof {
                assert(next.drop_last() =~= done);
                assert(next.last() == texts[i as int]);
                assert(texts[i as int] == field_texts(records@[i as int]@));
                assert(in_share(share, i as int) == selected(
                    cursor.document_id as int,
                    thread_index as int,
                    num_threads as int,
                ));
            }
            let step = cursor.next();
            match step.progress {
                Some(count) => progress.push(count),
                None => {},
            }
            assert(progress@ =~= progress_over(share, every, i + 1));
            match step.turn {
                Turn::Index { id } => store.index_record(id, &records[i]),
                Turn::Skip => {},
                Turn::TooBig => {
                    assert(first_too_big(share, texts.len() as int, i as int));
                    return (progress, Err(IndexError::DocumentIdTooBig));
                },
            }
            proof {
                assert(!too_big(share, i as int));
                assert forall|table: DocidsTable, key: Seq<u8>, id: u32| valid_key(key) implies (
                #[trigger] has_docid(store@, table, key, id) <==> has_docid(start, table, key, id)
                    || is_under(table, next, share, key, id)) by {
                    assert(has_docid(before, table, key, id) <==> has_docid(start, table, key, id)
                        || is_under(table, done, share, key, id));
                    let at = id - share.base;
                    if 0 <= at < i {
                        assert(done[at] == texts[at]);
                        assert(next[at] == texts[at]);
                    }
                }
            }
            i += 1;
        }
        progress.push(cursor.seen());
        assert(texts.take(i as int) =~= texts);
        let ghost last = store@;
        let tables = store.finish();
        proof {
            assert forall|table: DocidsTable, key: Seq<u8>, id: u32| valid_key(key) implies (
            #[trigger] is_listed(entries_listing(table, docids_of(tables@, table)), key, id)
                <==> is_found(self@, table, texts, share, key, id)) by {
                assert(has_docid(last, table, key, id) <==> has_docid(start, table, key, id)
                    || is_under(table, texts, share, key, id));
                assert(has_docid(start, table, key, id) == has_docid(self@, table, key, id));
            }
            assert forall|table: DocidsTable, i: int|
                0 <= i < docids_of(tables@, table).len() implies has_document(
                self@,
                table,
                texts,
                share,
                (#[trigger] docids_of(tables@, table)[i]).0,
            ) by {
                let entries = docids_of(tables@, table);
                let listing = entries_listing(table, entries);
                assert(all_intact(table, entries));
                let ids = table_ids(table, entries[i].1)->0;
                let id = choose|id: u32| #[trigger] ids.contains(id);
                assert(listing[i] == (entries[i].0, table_ids(table, entries[i].1)));
                assert(is_listed(listing, entries[i].0, id));
                assert(is_found(self@, table, texts, share, entries[i].0, id));
            }
        }
        (progress, Ok(tables))
    }
}

/// The entries of the documents of a share.
pub open spec fn document_rows(records: Seq<Seq<Seq<char>>>, share: Share) -> Entries
    decreases records.len(),
{
    if records.len() == 0 {
        Seq::empty()
    } else {
        let before = document_rows(records.drop_last(), share);
        let i = records.len() - 1;
        if in_share(share, i) {
            before.push((be_bytes((share.base + i) as u32), document_bytes(records.last())))
        } else {
            before
        }
    }
}

/// The entries of the word positions of the documents of a share.
pub open spec fn position_rows(records: Seq<Seq<Seq<char>>>, share: Share) -> Entries
    decreases records.len(),
{
    if records.len() == 0 {
        Seq::empty()
    } else {
        let before = position_rows(records.drop_last(), share);
        let i = records.len() - 1;
        if in_share(share, i) {
            before + position_entries((share.base + i) as u32, record_words(records.last()))
        } else {
            before
        }
    }
}

/// Adding documents to those of words touches nothing but the cache and the entries of words.
proof fn lemma_words_inserted_keeps(s: StoreView, words: Seq<(Seq<u8>, Seq<u32>)>, id: u32)
    ensures
        words_inserted(s, words, id).documents_ids == s.documents_ids,
        words_inserted(s, words, id).tables.documents == s.tables.documents,
        words_inserted(s, words, id).tables.docid_word_positions == s.tables.docid_word_positions,
        words_inserted(s, words, id).tables.main == s.tables.main,
    decreases words.len(),
{
    if words.len() > 0 {
        lemma_words_inserted_keeps(s, words.drop_last(), id);
    }
}

/// What a share of records adds to a store besides the documents of words and pairs: each
/// document of the share once, in order, with its word positions, and their ids. The main table
/// gets nothing.
pub proof fn lemma_rows(s: StoreView, records: Seq<Seq<Seq<char>>>, share: Share)
    ensures
        records_indexed(s, records, share).tables.documents == s.tables.documents + document_rows(
            records,
            share,
        ),
        records_indexed(s, records, share).tables.docid_word_positions
            == s.tables.docid_word_positions + position_rows(records, share),
        records_indexed(s, records, share).tables.main == s.tables.main,
        share.base >= 0 && (forall|i: int|
            0 <= i < records.len() ==> !#[trigger] too_big(share, i)) ==> forall|id: u32| #[trigger]
            records_indexed(s, records, share).documents_ids.contains(id) <==> {
                ||| s.documents_ids.contains(id)
                ||| share.base <= id < share.base + records.len() && in_share(
                    share,
                    id - share.base,
                )
            },
    decreases records.len(),
{
    let after = records_indexed(s, records, share);
    if records.len() > 0 {
        let rest = records.drop_last();
        let before = records_indexed(s, rest, share);
        let i = records.len() - 1;
        let id = (share.base + i) as u32;
        lemma_rows(s, rest, share);
        if in_share(share, i) {
            let words = record_words(records.last());
            lemma_words_inserted_keeps(
                pairs_inserted(before, close_pairs(words), id),
                words,
                id,
            );
        }
        assert(after.tables.documents =~= s.tables.documents + document_rows(records, share));
        assert(after.tables.docid_word_positions =~= s.tables.docid_word_positions + position_rows(
            records,
            share,
        ));
        if share.base >= 0 && (forall|j: int|
            0 <= j < records.len() ==> !#[trigger] too_big(share, j)) {
            assert(!too_big(share, i));
            assert forall|other: u32| #[trigger] after.documents_ids.contains(other) <==> {
                ||| s.documents_ids.contains(other)
                ||| share.base <= other < share.base + records.len() && in_share(
                    share,
                    other - share.base,
                )
            } by {
                assert(before.documents_ids.contains(other) <==> {
                    ||| s.documents_ids.contains(other)
                    ||| share.base <= other < share.base + rest.len() && in_share(
                        share,
                        other - share.base,
                    )
                });
            }
        }
    } else {
        assert(after.tables.documents =~= s.tables.documents + document_rows(records, share));
        assert(after.tables.docid_word_positions =~= s.tables.docid_word_positions + position_rows(
            records,
            share,
        ));
    }
}

/// Whether all words are below another one.
pub open spec fn all_words_below(words: Seq<(Seq<u8>, Seq<u32>)>, word: Seq<u8>) -> bool {
    forall|i: int| 0 <= i < words.len() ==> lex_lt((#[trigger] words[i]).0, word)
}

/// The keys of the word positions of a document are ascending, and below those of any later one.
pub proof fn lemma_position_keys(id: u32, words: Seq<(Seq<u8>, Seq<u32>)>)
    requires
        words_in_order(words),
    ensures
        ascending(keys_of(position_entries(id, words))),
        forall|i: int, word: Seq<u8>|
            0 <= i < position_entries(id, words).len() && all_words_below(words, word)
                ==> #[trigger] lex_lt(
                keys_of(position_entries(id, words))[i],
                be_bytes(id) + word,
            ),
        forall|i: int, later: u32, rest: Seq<u8>|
            0 <= i < position_entries(id, words).len() && id < later ==> #[trigger] lex_lt(
                keys_of(position_entries(id, words))[i],
                be_bytes(later) + rest,
            ),
    decreases words.len(),
{
    if words.len() > 0 {
        let rest = words.drop_last();
        let last = words.last().0;
        let before = position_entries(id, rest);
        let after = position_entries(id, words);
        assert(words_in_order(rest)) by {
            assert forall|i: int, j: int| 0 <= i < j < rest.len() implies #[trigger] lex_lt(
                rest[i].0,
                rest[j].0,
            ) by {
                assert(lex_lt(words[i].0, words[j].0));
            }
        }
        lemma_position_keys(id, rest);
        assert(all_words_below(rest, last)) by {
            assert forall|i: int| 0 <= i < rest.len() implies lex_lt((#[trigger] rest[i]).0, last) by {
                assert(lex_lt(words[i].0, words[words.len() - 1].0));
            }
        }
        let keys = keys_of(after);
        assert forall|i: int| 0 <= i < before.len() implies #[trigger] keys[i] == keys_of(
            before,
        )[i] by {}
        assert forall|i: int| before.len() <= i < after.len() implies #[trigger] keys[i] == be_bytes(
            id,
        ) + last by {}
        assert forall|i: int, j: int| 0 <= i < j < keys.len() implies #[trigger] lex_lt(
            keys[i],
            keys[j],
        ) by {
            if j < before.len() {
                assert(lex_lt(keys_of(before)[i], keys_of(before)[j]));
            } else {
                assert(lex_lt(keys_of(before)[i], be_bytes(id) + last));
            }
        }
        assert forall|i: int, word: Seq<u8>|
            0 <= i < after.len() && all_words_below(words, word) implies #[trigger] lex_lt(
            keys[i],
            be_bytes(id) + word,
        ) by {
            if i < before.len() {
                assert(all_words_below(rest, word)) by {
                    assert forall|j: int| 0 <= j < rest.len() implies lex_lt(
                        (#[trigger] rest[j]).0,
                        word,
                    ) by {
                        assert(lex_lt(words[j].0, word));
                    }
                }
                assert(lex_lt(keys_of(before)[i], be_bytes(id) + word));
            } else {
                assert(lex_lt(words[words.len() - 1].0, word));
                lemma_lex_same_prefix(be_bytes(id), last, word);
            }
        }
        assert forall|i: int, later: u32, tail: Seq<u8>|
            0 <= i < after.len() && id < later implies #[trigger] lex_lt(
            keys[i],
            be_bytes(later) + tail,
        ) by {
            if i < before.len() {
                assert(lex_lt(keys_of(before)[i], be_bytes(later) + tail));
            } else {
                lemma_be_bytes_ordered(id, later);
                lemma_lex_lower_prefix(be_bytes(id), last, be_bytes(later), tail);
            }
        }
    }
}

/// The documents of a share are written in the order of their keys, and so are their word
/// positions: neither needs a sorter, and no key is written twice.
pub proof fn lemma_rows_ascending(records: Seq<Seq<Seq<char>>>, share: Share)
    requires
        share.base >= 0,
        forall|i: int| 0 <= i < records.len() ==> !#[trigger] too_big(share, i),
    ensures
        ascending(keys_of(document_rows(records, share))),
        ascending(keys_of(position_rows(records, share))),
        keys_of(document_rows(records, share)).no_duplicates(),
        keys_of(position_rows(records, share)).no_duplicates(),
{
    lemma_rows_below(records, share);
    lemma_ascending_distinct(keys_of(document_rows(records, share)));
    lemma_ascending_distinct(keys_of(position_rows(records, share)));
}

/// The keys of the rows of a share are ascending, and below those of any later document.
proof fn lemma_rows_below(records: Seq<Seq<Seq<char>>>, share: Share)
    requires
        share.base >= 0,
        forall|i: int| 0 <= i < records.len() ==> !#[trigger] too_big(share, i),
    ensures
        ascending(keys_of(document_rows(records, share))),
        ascending(keys_of(position_rows(records, share))),
        forall|i: int, later: u32|
            0 <= i < document_rows(records, share).len() && share.base + records.len() <= later
                ==> #[trigger] lex_lt(keys_of(document_rows(records, share))[i], be_bytes(later)),
        forall|i: int, later: u32, rest: Seq<u8>|
            0 <= i < position_rows(records, share).len() && share.base + records.len() <= later
                ==> #[trigger] lex_lt(
                keys_of(position_rows(records, share))[i],
                be_bytes(later) + rest,
            ),
    decreases records.len(),
{
    if records.len() > 0 {
        let shorter = records.drop_last();
        let at = records.len() - 1;
        assert forall|i: int| 0 <= i < shorter.len() implies !#[trigger] too_big(share, i) by {}
        lemma_rows_below(shorter, share);
        if in_share(share, at) {
            assert(!too_big(share, at));
            assert(records =~= shorter.push(records.last()));
            lemma_document_row_below(shorter, share, records.last());
            lemma_position_row_below(shorter, share, records.last());
        }
    }
}

/// One more document after those of a share.
proof fn lemma_document_row_below(
    records: Seq<Seq<Seq<char>>>,
    share: Share,
    record: Seq<Seq<char>>,
)
    requires
        share.base >= 0,
        share.base + records.len() <= u32::MAX,
        in_share(share, records.len() as int),
        ascending(keys_of(document_rows(records, share))),
        forall|i: int, later: u32|
            0 <= i < document_rows(records, share).len() && share.base + records.len() <= later
                ==> #[trigger] lex_lt(keys_of(document_rows(records, share))[i], be_bytes(later)),
    ensures
        ascending(keys_of(document_rows(records.push(record), share))),
        forall|i: int, later: u32|
            0 <= i < document_rows(records.push(record), share).len() && share.base + records.len()
                < later ==> #[trigger] lex_lt(
                keys_of(document_rows(records.push(record), share))[i],
                be_bytes(later),
            ),
{
    let id = (share.base + records.len()) as u32;
    let before = keys_of(document_rows(records, share));
    let after = keys_of(document_rows(records.push(record), share));
    assert(records.push(record).drop_last() =~= records);
    assert(after =~= before.push(be_bytes(id)));
    assert forall|i: int, j: int| 0 <= i < j < after.len() implies #[trigger] lex_lt(
        after[i],
        after[j],
    ) by {
        if j < before.len() {
            assert(lex_lt(before[i], before[j]));
        } else {
            assert(lex_lt(before[i], be_bytes(id)));
        }
    }
    assert forall|i: int, later: u32| 0 <= i < after.len() && id < later implies #[trigger] lex_lt(
        after[i],
        be_bytes(later),
    ) by {
        if i < before.len() {
            assert(lex_lt(before[i], be_bytes(later)));
        } else {
            lemma_be_bytes_ordered(id, later);
        }
    }
}

/// The word positions of one more document after those of a share.
proof fn lemma_position_row_below(
    records: Seq<Seq<Seq<char>>>,
    share: Share,
    record: Seq<Seq<char>>,
)
    requires
        share.base >= 0,
        share.base + records.len() <= u32::MAX,
        in_share(share, records.len() as int),
        ascending(keys_of(position_rows(records, share))),
        forall|i: int, later: u32, rest: Seq<u8>|
            0 <= i < position_rows(records, share).len() && share.base + records.len() <= later
                ==> #[trigger] lex_lt(
                keys_of(position_rows(records, share))[i],
                be_bytes(later) + rest,
            ),
    ensures
        ascending(keys_of(position_rows(records.push(record), share))),
        forall|i: int, later: u32, rest: Seq<u8>|
            0 <= i < position_rows(records.push(record), share).len() && share.base + records.len()
                < later ==> #[trigger] lex_lt(
                keys_of(position_rows(records.push(record), share))[i],
                be_bytes(later) + rest,
            ),
{
    let id = (share.base + records.len()) as u32;
    let words = record_words(record);
    let before = keys_of(position_rows(records, share));
    let added = keys_of(position_entries(id, words));
    let after = keys_of(position_rows(records.push(record), share));
    lemma_words_exist(record);
    lemma_position_keys(id, words);
    assert(records.push(record).drop_last() =~= records);
    assert(after =~= before + added);
    assert forall|i: int, j: int| 0 <= i < j < after.len() implies #[trigger] lex_lt(
        after[i],
        after[j],
    ) by {
        if j < before.len() {
            assert(lex_lt(before[i], before[j]));
        } else if i >= before.len() {
            assert(lex_lt(added[i - before.len()], added[j - before.len()]));
        } else {
            let rest = lemma_position_key_prefix(id, words, j - before.len());
            assert(lex_lt(before[i], be_bytes(id) + rest));
        }
    }
    assert forall|i: int, later: u32, rest: Seq<u8>|
        0 <= i < after.len() && id < later implies #[trigger] lex_lt(
        after[i],
        be_bytes(later) + rest,
    ) by {
        if i < before.len() {
            assert(lex_lt(before[i], be_bytes(later) + rest));
        } else {
            assert(lex_lt(added[i - before.len()], be_bytes(later) + rest));
        }
    }
}

/// The keys of the word positions of a document start with its id.
proof fn lemma_position_key_prefix(id: u32, words: Seq<(Seq<u8>, Seq<u32>)>, i: int) -> (rest: Seq<
    u8,
>)
    requires
        0 <= i < position_entries(id, words).len(),
    ensures
        keys_of(position_entries(id, words))[i] == be_bytes(id) + rest,
    decreases words.len(),
{
    let before = position_entries(id, words.drop_last());
    if i < before.len() {
        lemma_position_key_prefix(id, words.drop_last(), i)
    } else {
        words.last().0
    }
}

/// Each document is in the share of one thread, and of one only.
pub proof fn lemma_one_thread(document_id: int, num_threads: int)
    requires
        document_id >= 0,
        num_threads > 0,
    ensures
        0 <= document_id % num_threads < num_threads,
        selected(document_id, document_id % num_threads, num_threads),
        forall|a: int, b: int|
            selected(document_id, a, num_threads) && selected(document_id, b, num_threads) ==> a
                == b,
{
    vstd::arithmetic::div_mod::lemma_mod_bound(document_id, num_threads);
}

/// However many threads share the records, a document is under a key of a table of one of them
/// where its record names the key.
pub proof fn lemma_threads_cover(
    table: DocidsTable,
    records: Seq<Seq<Seq<char>>>,
    base: int,
    num_threads: int,
    key: Seq<u8>,
    id: u32,
)
    requires
        base >= 0,
        num_threads > 0,
    ensures
        (exists|thread_index: int|
            0 <= thread_index < num_threads && #[trigger] is_under(
                table,
                records,
                (Share { base, thread_index, num_threads }),
                key,
                id,
            )) <==> base <= id < base + records.len() && names_key(
            table,
            record_words(records[id - base]),
            key,
        ),
{
    lemma_one_thread(id as int, num_threads);
    let share = Share { base, thread_index: id as int % num_threads, num_threads };
    if base <= id < base + records.len() && names_key(table, record_words(records[id - base]), key) {
        assert(is_under(table, records, share, key, id));
    }
}

/// The entry of a document.
pub open spec fn document_row(records: Seq<Seq<Seq<char>>>, base: int, i: int) -> (Seq<u8>, Seq<u8>) {
    (be_bytes((base + i) as u32), document_bytes(records[i]))
}

/// The entries of the word positions of a document.
pub open spec fn document_positions(
    records: Seq<Seq<Seq<char>>>,
    base: int,
    i: int,
) -> Entries {
    position_entries((base + i) as u32, record_words(records[i]))
}

/// Whether an entry is that of a document of a share.
pub open spec fn is_document_row(
    records: Seq<Seq<Seq<char>>>,
    share: Share,
    row: (Seq<u8>, Seq<u8>),
) -> bool {
    exists|i: int|
        0 <= i < records.len() && in_share(share, i) && row == #[trigger] document_row(
            records,
            share.base,
            i,
        )
}

/// Whether an entry is one of the word positions of a document of a share.
pub open spec fn is_position_row(
    records: Seq<Seq<Seq<char>>>,
    share: Share,
    row: (Seq<u8>, Seq<u8>),
) -> bool {
    exists|i: int|
        0 <= i < records.len() && in_share(share, i) && (#[trigger] document_positions(
            records,
            share.base,
            i,
        )).contains(row)
}

/// The entries of a share are those of its documents and of their word positions.
pub proof fn lemma_rows_are(
    records: Seq<Seq<Seq<char>>>,
    share: Share,
    row: (Seq<u8>, Seq<u8>),
)
    ensures
        document_rows(records, share).contains(row) <==> is_document_row(records, share, row),
        position_rows(records, share).contains(row) <==> is_position_row(records, share, row),
    decreases records.len(),
{
    let documents = document_rows(records, share);
    let positions = position_rows(records, share);
    if records.len() > 0 {
        let rest = records.drop_last();
        let at = records.len() - 1;
        let base = share.base;
        lemma_rows_are(rest, share, row);
        assert forall|i: int| 0 <= i < rest.len() implies #[trigger] document_row(records, base, i)
            == document_row(rest, base, i) && #[trigger] document_positions(records, base, i)
            == document_positions(rest, base, i) by {
            assert(records[i] == rest[i]);
        }
        let before = document_rows(rest, share);
        let previous = position_rows(rest, share);
        if before.contains(row) {
            let k = choose|k: int| 0 <= k < before.len() && before[k] == row;
            assert(documents[k] == row);
        }
        if previous.contains(row) {
            let k = choose|k: int| 0 <= k < previous.len() && previous[k] == row;
            assert(positions[k] == row);
        }
        if is_document_row(rest, share, row) {
            let i = choose|i: int|
                0 <= i < rest.len() && in_share(share, i) && row == #[trigger] document_row(
                    rest,
                    base,
                    i,
                );
            assert(row == document_row(records, base, i));
        }
        if is_position_row(rest, share, row) {
            let i = choose|i: int|
                0 <= i < rest.len() && in_share(share, i) && (#[trigger] document_positions(
                    rest,
                    base,
                    i,
                )).contains(row);
            assert(document_positions(records, base, i).contains(row));
        }
        if in_share(share, at) {
            let last = document_row(records, base, at);
            let added = document_positions(records, base, at);
            assert(documents =~= before.push(last));
            assert(positions =~= previous + added);
            if row == last {
                assert(documents[before.len() as int] == row);
            }
            if added.contains(row) {
                let k = choose|k: int| 0 <= k < added.len() && added[k] == row;
                assert(positions[previous.len() + k] == row);
            }
            if documents.contains(row) {
                let k = choose|k: int| 0 <= k < documents.len() && documents[k] == row;
                if k < before.len() {
                    assert(before[k] == row);
                }
            }
            if positions.contains(row) {
                let k = choose|k: int| 0 <= k < positions.len() && positions[k] == row;
                if k < previous.len() {
                    assert(previous[k] == row);
                } else {
                    assert(added[k - previous.len()] == row);
                }
            }
        }
        if is_document_row(records, share, row) {
            let i = choose|i: int|
                0 <= i < records.len() && in_share(share, i) && row == #[trigger] document_row(
                    records,
                    base,
                    i,
                );
            if i < at {
                assert(row == document_row(rest, base, i));
            }
        }
        if is_position_row(records, share, row) {
            let i = choose|i: int|
                0 <= i < records.len() && in_share(share, i) && (#[trigger] document_positions(
                    records,
                    base,
                    i,
                )).contains(row);
            if i < at {
                assert(document_positions(rest, base, i).contains(row));
            }
        }
    }
}

/// However many threads share the records, their entries of documents and of word positions are
/// together those of one thread.
pub proof fn lemma_threads_cover_rows(
    records: Seq<Seq<Seq<char>>>,
    base: int,
    num_threads: int,
    row: (Seq<u8>, Seq<u8>),
)
    requires
        base >= 0,
        num_threads > 0,
    ensures
        (exists|thread_index: int|
            0 <= thread_index < num_threads && (#[trigger] document_rows(
                records,
                (Share { base, thread_index, num_threads }),
            )).contains(row)) <==> document_rows(
            records,
            (Share { base, thread_index: 0, num_threads: 1 }),
        ).contains(row),
        (exists|thread_index: int|
            0 <= thread_index < num_threads && (#[trigger] position_rows(
                records,
                (Share { base, thread_index, num_threads }),
            )).contains(row)) <==> position_rows(
            records,
            (Share { base, thread_index: 0, num_threads: 1 }),
        ).contains(row),
{
    let one = Share { base, thread_index: 0, num_threads: 1 };
    lemma_rows_are(records, one, row);
    assert forall|i: int| in_share(one, i) by {}
    assert forall|thread_index: int| #![trigger document_rows(
        records,
        (Share { base, thread_index, num_threads }),
    )]
        document_rows(records, (Share { base, thread_index, num_threads })).contains(
            row,
        ) implies document_rows(records, one).contains(row) by {
        let share = Share { base, thread_index, num_threads };
        lemma_rows_are(records, share, row);
        let i = choose|i: int|
            0 <= i < records.len() && in_share(share, i) && row == #[trigger] document_row(
                records,
                base,
                i,
            );
        assert(row == document_row(records, one.base, i));
        assert(in_share(one, i));
    }
    assert forall|thread_index: int| #![trigger position_rows(
        records,
        (Share { base, thread_index, num_threads }),
    )]
        position_rows(records, (Share { base, thread_index, num_threads })).contains(
            row,
        ) implies position_rows(records, one).contains(row) by {
        let share = Share { base, thread_index, num_threads };
        lemma_rows_are(records, share, row);
        let i = choose|i: int|
            0 <= i < records.len() && in_share(share, i) && (#[trigger] document_positions(
                records,
                base,
                i,
            )).contains(row);
        assert(document_positions(records, one.base, i).contains(row));
        assert(in_share(one, i));
    }
    if document_rows(records, one).contains(row) {
        let i = choose|i: int|
            0 <= i < records.len() && in_share(one, i) && row == #[trigger] document_row(
                records,
                base,
                i,
            );
        lemma_one_thread(base + i, num_threads);
        let share = Share { base, thread_index: (base + i) % num_threads, num_threads };
        lemma_rows_are(records, share, row);
        assert(in_share(share, i));
        assert(row == document_row(records, share.base, i));
        assert(document_rows(records, share).contains(row));
    }
    if position_rows(records, one).contains(row) {
        let i = choose|i: int|
            0 <= i < records.len() && in_share(one, i) && (#[trigger] document_positions(
                records,
                base,
                i,
            )).contains(row);
        lemma_one_thread(base + i, num_threads);
        let share = Share { base, thread_index: (base + i) % num_threads, num_threads };
        lemma_rows_are(records, share, row);
        assert(in_share(share, i));
        assert(document_positions(records, share.base, i).contains(row));
        assert(position_rows(records, share).contains(row));
    }
}

/// No key is in the entries of documents, or in those of word positions, of two threads.
pub proof fn lemma_threads_disjoint(
    records: Seq<Seq<Seq<char>>>,
    base: int,
    num_threads: int,
    a: int,
    b: int,
    key: Seq<u8>,
)
    requires
        base >= 0,
        num_threads > 0,
        a != b,
        forall|i: int|
            0 <= i < records.len() ==> !#[trigger] too_big(
                (Share { base, thread_index: a, num_threads }),
                i,
            ),
        forall|i: int|
            0 <= i < records.len() ==> !#[trigger] too_big(
                (Share { base, thread_index: b, num_threads }),
                i,
            ),
    ensures
        !(keys_of(
            document_rows(records, (Share { base, thread_index: a, num_threads })),
        ).contains(key) && keys_of(
            document_rows(records, (Share { base, thread_index: b, num_threads })),
        ).contains(key)),
        !(keys_of(
            position_rows(records, (Share { base, thread_index: a, num_threads })),
        ).contains(key) && keys_of(
            position_rows(records, (Share { base, thread_index: b, num_threads })),
        ).contains(key)),
{
    let x = Share { base, thread_index: a, num_threads };
    let y = Share { base, thread_index: b, num_threads };
    let p = document_rows(records, x);
    let q = document_rows(records, y);
    if keys_of(p).contains(key) && keys_of(q).contains(key) {
        let i = lemma_document_key_place(records, x, key);
        let j = lemma_document_key_place(records, y, key);
        assert(!too_big(x, i) && !too_big(y, j));
        lemma_ids_differ(base + i, base + j);
    }
    let p = position_rows(records, x);
    let q = position_rows(records, y);
    if keys_of(p).contains(key) && keys_of(q).contains(key) {
        let i = lemma_position_key_place(records, x, key);
        let j = lemma_position_key_place(records, y, key);
        assert(!too_big(x, i) && !too_big(y, j));
        lemma_ids_differ(base + i, base + j);
        assert(key.take(4) =~= be_bytes((base + i) as u32));
        assert(key.take(4) =~= be_bytes((base + j) as u32));
    }
}

/// Ids are told apart by their bytes.
proof fn lemma_ids_differ(a: int, b: int)
    requires
        0 <= a <= u32::MAX,
        0 <= b <= u32::MAX,
    ensures
        a != b ==> be_bytes(a as u32) != be_bytes(b as u32),
{
    if a < b {
        lemma_be_bytes_ordered(a as u32, b as u32);
        lemma_lex_irreflexive(be_bytes(a as u32));
    } else if b < a {
        lemma_be_bytes_ordered(b as u32, a as u32);
        lemma_lex_irreflexive(be_bytes(a as u32));
    }
}

/// The document that has a key among those of a share.
proof fn lemma_document_key_place(
    records: Seq<Seq<Seq<char>>>,
    share: Share,
    key: Seq<u8>,
) -> (i: int)
    requires
        keys_of(document_rows(records, share)).contains(key),
    ensures
        0 <= i < records.len(),
        in_share(share, i),
        key == be_bytes((share.base + i) as u32),
{
    let rows = document_rows(records, share);
    let k = choose|k: int| 0 <= k < keys_of(rows).len() && keys_of(rows)[k] == key;
    assert(rows.contains(rows[k]));
    lemma_rows_are(records, share, rows[k]);
    choose|i: int|
        0 <= i < records.len() && in_share(share, i) && rows[k] == #[trigger] document_row(
            records,
            share.base,
            i,
        )
}

/// The document that has a key among those of the word positions of a share: the key starts with
/// its id.
proof fn lemma_position_key_place(
    records: Seq<Seq<Seq<char>>>,
    share: Share,
    key: Seq<u8>,
) -> (i: int)
    requires
        keys_of(position_rows(records, share)).contains(key),
    ensures
        0 <= i < records.len(),
        in_share(share, i),
        key.len() >= 4,
        key.take(4) == be_bytes((share.base + i) as u32),
{
    let rows = position_rows(records, share);
    let k = choose|k: int| 0 <= k < keys_of(rows).len() && keys_of(rows)[k] == key;
    let row = rows[k];
    assert(rows.contains(row));
    lemma_rows_are(records, share, row);
    let i = choose|i: int|
        0 <= i < records.len() && in_share(share, i) && (#[trigger] document_positions(
            records,
            share.base,
            i,
        )).contains(row);
    let id = (share.base + i) as u32;
    let words = record_words(records[i]);
    let entries = position_entries(id, words);
    let n = choose|n: int| 0 <= n < entries.len() && entries[n] == row;
    let rest = lemma_position_key_prefix(id, words, n);
    assert(keys_of(entries)[n] == key);
    assert(key.take(4) =~= be_bytes(id));
    i
}

/// The ids of all documents do not depend on the caches of a store.
pub proof fn lemma_documents_ids_alike(
    a: StoreView,
    b: StoreView,
    records: Seq<Seq<Seq<char>>>,
    share: Share,
)
    requires
        a.documents_ids == b.documents_ids,
    ensures
        records_indexed(a, records, share).documents_ids == records_indexed(
            b,
            records,
            share,
        ).documents_ids,
    decreases records.len(),
{
    if records.len() > 0 {
        let rest = records.drop_last();
        let i = records.len() - 1;
        let id = (share.base + i) as u32;
        let words = record_words(records.last());
        lemma_documents_ids_alike(a, b, rest, share);
        lemma_words_inserted_keeps(
            pairs_inserted(records_indexed(a, rest, share), close_pairs(words), id),
            words,
            id,
        );
        lemma_words_inserted_keeps(
            pairs_inserted(records_indexed(b, rest, share), close_pairs(words), id),
            words,
            id,
        );
    }
}

/// What is to be done at a record: it is indexed where the remainder of its id by the number of
/// threads is the index of the thread, unless the id does not fit in 32 bits. Before that the
/// number of records seen is reported, in 32 bits, where the id is a multiple of the interval.
pub proof fn lemma_step_says(cursor: Cursor)
    requires
        cursor.num_threads > 0,
        cursor.log_every_n > 0,
        cursor.base_document_id <= cursor.document_id,
    ensures
        ({
            let id = cursor.document_id as int;
            let step = step_of(cursor);
            if id % (cursor.num_threads as int) != cursor.thread_index {
                step.turn is Skip && step.progress is None
            } else {
                &&& id <= 4294967295 ==> step.turn == (Turn::Index { id: id as u32 })
                &&& id > 4294967295 ==> step.turn is TooBig
                &&& step.progress is Some <==> id % (cursor.log_every_n as int) == 0
                &&& step.progress is Some ==> step.progress->0 == (id - cursor.base_document_id)
                    % 4294967296
            }
        }),
{
}

/// A place is the first with an id that is too big where it is the first, of those that fall to the
/// thread, whose id does not fit in 32 bits.
pub proof fn lemma_first_too_big_says(share: Share, count: int, i: int)
    ensures
        first_too_big(share, count, i) <==> {
            &&& 0 <= i < count
            &&& (share.base + i) % share.num_threads == share.thread_index
            &&& share.base + i > 4294967295
            &&& forall|j: int|
                0 <= j < i && #[trigger] in_share(share, j) ==> share.base + j <= 4294967295
        },
        forall|j: int| #[trigger]
            in_share(share, j) <==> (share.base + j) % share.num_threads == share.thread_index,
{
    if first_too_big(share, count, i) {
        assert forall|j: int| 0 <= j < i && #[trigger] in_share(share, j) implies share.base + j
            <= 4294967295 by {
            assert(!too_big(share, j));
        }
    }
}

/// The progress that is reported over records is the number of records before each document of the
/// share whose id is a multiple of the interval, in order.
pub proof fn lemma_progress_says(share: Share, log_every_n: int, count: int)
    requires
        0 <= count <= 4294967296,
    ensures
        forall|n: u32| #[trigger]
            progress_over(share, log_every_n, count).contains(n) <==> {
                &&& n < count
                &&& (share.base + n) % share.num_threads == share.thread_index
                &&& (share.base + n) % log_every_n == 0
            },
        forall|k: int, l: int|
            0 <= k < l < progress_over(share, log_every_n, count).len() ==> progress_over(
                share,
                log_every_n,
                count,
            )[k] < progress_over(share, log_every_n, count)[l],
    decreases count,
{
    if count > 0 {
        let before = progress_over(share, log_every_n, count - 1);
        let after = progress_over(share, log_every_n, count);
        let last = (count - 1) as u32;
        let reported = (share.base + last) % share.num_threads == share.thread_index && (share.base
            + last) % log_every_n == 0;
        lemma_progress_says(share, log_every_n, count - 1);
        assert(in_share(share, count - 1) == ((share.base + last) % share.num_threads
            == share.thread_index));
        assert(low_bits(count - 1) == last);
        assert(after == if reported {
            before.push(last)
        } else {
            before
        });
        assert forall|n: u32| #[trigger] after.contains(n) <==> before.contains(n) || reported && n
            == last by {
            if before.contains(n) {
                let k = choose|k: int| 0 <= k < before.len() && before[k] == n;
                assert(after[k] == n);
            }
            if reported && n == last {
                assert(after[before.len() as int] == n);
            }
        }
        assert forall|k: int, l: int| 0 <= k < l < after.len() implies after[k] < after[l] by {
            if l == before.len() {
                assert(before.contains(before[k]));
            }
        }
    }
}

/// The texts of records are those of their fields, each at the place of its record and field.
pub proof fn lemma_record_texts(records: Seq<Vec<String>>, i: int, k: int)
    requires
        0 <= i < records.len(),
        0 <= k < records[i]@.len(),
    ensures
        record_texts(records).len() == records.len(),
        record_texts(records)[i].len() == records[i]@.len(),
        record_texts(records)[i][k] == records[i]@[k]@,
{
}

/// A count is reported as its remainder by two to the power of 32.
pub proof fn lemma_low_bits(count: int)
    ensures
        low_bits(count) == count % 4294967296,
{
}

} // verus!
