//! The store of one indexer: what it has seen of the documents so far, and the entries that it
//! hands to the tables.
use crate::bytes::{be_bytes, to_be_bytes, to_bytes};
use crate::cache::{
    has_key, ids_under, key_parts, keys_distinct, lemma_record, place_of, recorded, CacheKey,
    Cached, DocidsCache,
};
use crate::docids::{bitmap_ids, bitmap_sound, roaring_bytes, roaring_ids};
use crate::document::{document_bytes, storable, write_fields};
use crate::fields_ids_map::{json_strings, FieldsIdsMap};
use crate::keys::{
    lemma_main_keys_valid, main_key, valid_key, DOCUMENTS_IDS_KEY, FIELDS_IDS_MAP_KEY,
};
use crate::proximity::{
    close_pairs, compute_words_pair_proximities, has_close, is_close_pair, is_closest,
    lemma_close_pairs_exist, lemma_close_pairs_unique, lemma_closest_unique, pair_is_of,
    pair_views, PairProximity,
};
use crate::tables::{
    all_intact, all_keys_valid, all_read_back, all_sound, cached_listing, cached_views,
    docids_entries, entries_listing, entry_views, inhabited, is_listed, key_len,
    lemma_entries_list, lemma_listed_concat, lemma_written_keys_valid, none_empty,
    position_entries, table_key, write_docid_word_positions, write_documents_ids,
    write_word_docids, write_words_pairs_proximities, DocidsTable, Entries, Entry, Listing,
};
use crate::words_positions::{
    field_texts, has_word, lemma_has_word, lemma_words_exist, lemma_words_unique, record_words,
    word_at, words_in_order, words_positions, WordsPositions,
};
use grenad::CompressionType;
use roaring::RoaringBitmap;
use vstd::prelude::*;
use vstd::string::StringSliceAdditionalSpecFns;

verus! {

/// `grenad::CompressionType`, how the chunks of a table are compressed.
#[verifier::external_type_specification]
#[verifier::external_body]
pub struct ExCompressionType(CompressionType);

/// The least memory, in bytes, that a sorter is given.
pub const MIN_SORTER_MEMORY: usize = 1024 * 1024;

/// The number of sorters among which the memory is divided.
pub const SORTERS: usize = 3;

/// How the tables are written.
#[derive(Clone, Copy)]
pub struct ChunkOptions {
    pub compression_type: CompressionType,
    pub compression_level: Option<u32>,
    pub fusing_shrink_size: Option<u64>,
    /// The number of chunks above which a sorter merges them.
    pub max_nb_chunks: Option<usize>,
    /// The memory, in bytes, of each sorter.
    pub max_memory: Option<usize>,
}

/// The share that each sorter gets of the memory.
pub open spec fn sorter_memory(max_memory: Option<usize>) -> Option<usize> {
    match max_memory {
        Some(memory) => Some(
            if memory / SORTERS > MIN_SORTER_MEMORY {
                memory / SORTERS
            } else {
                MIN_SORTER_MEMORY
            },
        ),
        None => None,
    }
}

/// Entries on their way into the tables. Those of the documents and of their word positions are
/// written as they come, the others are sorted and merged first.
pub struct Tables {
    pub main: Vec<Entry>,
    pub word_docids: Vec<Entry>,
    pub docid_word_positions: Vec<Entry>,
    pub words_pairs_proximities_docids: Vec<Entry>,
    pub documents: Vec<Entry>,
}

/// The keys and values of each table.
#[verifier::ext_equal]
pub struct TablesView {
    pub main: Entries,
    pub word_docids: Entries,
    pub docid_word_positions: Entries,
    pub words_pairs_proximities_docids: Entries,
    pub documents: Entries,
}

impl View for Tables {
    type V = TablesView;

    open spec fn view(&self) -> TablesView {
        TablesView {
            main: entry_views(self.main@),
            word_docids: entry_views(self.word_docids@),
            docid_word_positions: entry_views(self.docid_word_positions@),
            words_pairs_proximities_docids: entry_views(self.words_pairs_proximities_docids@),
            documents: entry_views(self.documents@),
        }
    }
}

/// No entries.
pub open spec fn no_entries() -> TablesView {
    TablesView {
        main: Entries::empty(),
        word_docids: Entries::empty(),
        docid_word_positions: Entries::empty(),
        words_pairs_proximities_docids: Entries::empty(),
        documents: Entries::empty(),
    }
}

impl Tables {
    /// No entries.
    pub fn new() -> (tables: Tables)
        ensures
            tables@ == no_entries(),
    {
        let tables = Tables {
            main: Vec::new(),
            word_docids: Vec::new(),
            docid_word_positions: Vec::new(),
            words_pairs_proximities_docids: Vec::new(),
            documents: Vec::new(),
        };
        assert(tables@ =~= no_entries());
        tables
    }
}

/// The entries of a table of document ids.
pub open spec fn docids_of(tables: TablesView, table: DocidsTable) -> Entries {
    match table {
        DocidsTable::Words => tables.word_docids,
        DocidsTable::Pairs => tables.words_pairs_proximities_docids,
    }
}

/// What a store holds.
#[verifier::ext_equal]
pub struct StoreView {
    /// The documents of recent words.
    pub word_docids: Cached,
    pub word_docids_limit: usize,
    /// The documents of recent pairs of words.
    pub words_pairs_proximities_docids: Cached,
    pub words_pairs_proximities_docids_limit: usize,
    /// All documents.
    pub documents_ids: Set<u32>,
    pub options: ChunkOptions,
    /// What was not handed out yet.
    pub tables: TablesView,
}

/// What is cached for a table of document ids.
pub open spec fn cache_of(s: StoreView, table: DocidsTable) -> Cached {
    match table {
        DocidsTable::Words => s.word_docids,
        DocidsTable::Pairs => s.words_pairs_proximities_docids,
    }
}

/// Whether a store has a document under a key of a table, be it cached or in an entry.
pub open spec fn has_docid(s: StoreView, table: DocidsTable, key: Seq<u8>, id: u32) -> bool {
    has_listed(table, cache_of(s, table), docids_of(s.tables, table), key, id)
}

/// Whether a document is under a key of a table, be it cached or in an entry.
pub open spec fn has_listed(
    table: DocidsTable,
    cached: Cached,
    entries: Entries,
    key: Seq<u8>,
    id: u32,
) -> bool {
    ||| is_listed(cached_listing(table, cached), key, id)
    ||| is_listed(entries_listing(table, entries), key, id)
}

/// Whether cached keys are keys of a table.
pub open spec fn keys_fit(table: DocidsTable, cached: Cached) -> bool {
    forall|i: int| 0 <= i < cached.len() ==> (#[trigger] cached[i]).0.len() == key_len(table)
}

/// A store once the documents of a word get one more. A new word that fills the cache drives the
/// least recently used one out, into an entry.
pub open spec fn word_inserted(s: StoreView, word: Seq<u8>, id: u32) -> StoreView {
    let cached = recorded(s.word_docids, seq![word], id);
    if !has_key(s.word_docids, seq![word]) && cached.len() == s.word_docids_limit {
        StoreView {
            word_docids: cached.skip(1),
            tables: TablesView {
                word_docids: s.tables.word_docids + docids_entries(
                    DocidsTable::Words,
                    cached.take(1),
                ),
                ..s.tables
            },
            ..s
        }
    } else {
        StoreView { word_docids: cached, ..s }
    }
}

/// A store once the documents of each of the words get one more.
pub open spec fn words_inserted(s: StoreView, words: Seq<(Seq<u8>, Seq<u32>)>, id: u32) -> StoreView
    decreases words.len(),
{
    if words.len() == 0 {
        s
    } else {
        word_inserted(words_inserted(s, words.drop_last(), id), words.last().0, id)
    }
}

/// The parts of the key of a pair of words.
pub open spec fn pair_parts(pair: (Seq<u8>, Seq<u8>, u8)) -> Seq<Seq<u8>> {
    seq![pair.0, pair.1, seq![pair.2]]
}

/// What is cached once the documents of each of the pairs get one more.
pub open spec fn pairs_recorded(
    cached: Cached,
    pairs: Seq<(Seq<u8>, Seq<u8>, u8)>,
    id: u32,
) -> Cached
    decreases pairs.len(),
{
    if pairs.len() == 0 {
        cached
    } else {
        recorded(pairs_recorded(cached, pairs.drop_last(), id), pair_parts(pairs.last()), id)
    }
}

/// The number of cached sets above a limit.
pub open spec fn overflow(cached: Cached, limit: usize) -> int {
    if cached.len() > limit {
        cached.len() - limit
    } else {
        0
    }
}

/// A store once the documents of each of the pairs get one more. What is then above the limit of
/// the cache is driven out into entries, the least recently used first.
pub open spec fn pairs_inserted(
    s: StoreView,
    pairs: Seq<(Seq<u8>, Seq<u8>, u8)>,
    id: u32,
) -> StoreView {
    let cached = pairs_recorded(s.words_pairs_proximities_docids, pairs, id);
    let out = overflow(cached, s.words_pairs_proximities_docids_limit);
    StoreView {
        words_pairs_proximities_docids: cached.skip(out),
        tables: TablesView {
            words_pairs_proximities_docids: s.tables.words_pairs_proximities_docids
                + docids_entries(DocidsTable::Pairs, cached.take(out)),
            ..s.tables
        },
        ..s
    }
}

/// A store once a document is added, given its words.
pub open spec fn document_written(
    s: StoreView,
    id: u32,
    words: Seq<(Seq<u8>, Seq<u32>)>,
    record: Seq<Seq<char>>,
) -> StoreView {
    let t = words_inserted(pairs_inserted(s, close_pairs(words), id), words, id);
    StoreView {
        documents_ids: t.documents_ids.insert(id),
        tables: TablesView {
            documents: t.tables.documents.push((be_bytes(id), document_bytes(record))),
            docid_word_positions: t.tables.docid_word_positions + position_entries(id, words),
            ..t.tables
        },
        ..t
    }
}

/// A store once a record is added as a document.
pub open spec fn record_indexed(s: StoreView, id: u32, record: Seq<Seq<char>>) -> StoreView {
    document_written(s, id, record_words(record), record)
}

/// A store once the fields of the documents are written.
pub open spec fn fields_written(s: StoreView, names: Seq<Seq<char>>) -> StoreView {
    StoreView {
        tables: TablesView {
            main: s.tables.main.push((FIELDS_IDS_MAP_KEY.spec_bytes(), json_strings(names))),
            ..s.tables
        },
        ..s
    }
}

/// The entries that are left when a store ends: what was cached becomes entries too, and so does
/// the set of all documents.
pub open spec fn finished(s: StoreView) -> TablesView {
    TablesView {
        main: s.tables.main.push(
            (DOCUMENTS_IDS_KEY.spec_bytes(), roaring_bytes(s.documents_ids)),
        ),
        word_docids: s.tables.word_docids + docids_entries(DocidsTable::Words, s.word_docids),
        words_pairs_proximities_docids: s.tables.words_pairs_proximities_docids + docids_entries(
            DocidsTable::Pairs,
            s.words_pairs_proximities_docids,
        ),
        ..s.tables
    }
}

/// Whether a pair has a key.
pub open spec fn has_pair(pairs: Seq<(Seq<u8>, Seq<u8>, u8)>, key: Seq<u8>) -> bool {
    exists|k: int|
        0 <= k < pairs.len() && table_key(DocidsTable::Pairs, pair_parts(#[trigger] pairs[k]))
            == key
}

/// Whether a document with these words is to be found under a key of a table.
pub open spec fn names_key(
    table: DocidsTable,
    words: Seq<(Seq<u8>, Seq<u32>)>,
    key: Seq<u8>,
) -> bool {
    match table {
        DocidsTable::Words => has_word(words, key),
        DocidsTable::Pairs => has_pair(close_pairs(words), key),
    }
}

/// Adding an id under a key adds it to what is listed under the key, and nothing else.
pub proof fn lemma_recorded_listed(
    table: DocidsTable,
    cached: Cached,
    parts: Seq<Seq<u8>>,
    id: u32,
    key: Seq<u8>,
    other: u32,
)
    requires
        keys_distinct(cached),
    ensures
        is_listed(cached_listing(table, recorded(cached, parts, id)), key, other) <==> {
            ||| is_listed(cached_listing(table, cached), key, other)
            ||| key == table_key(table, parts) && other == id
        },
{
    let after = recorded(cached, parts, id);
    let x = cached_listing(table, cached);
    let y = cached_listing(table, after);
    let known = has_key(cached, parts);
    let at = place_of(cached, parts);
    let last = after.len() - 1;
    lemma_record(cached, parts, id);
    assert(after[last] == (parts, ids_under(cached, parts).insert(id)));
    if is_listed(x, key, other) {
        let i = choose|i: int|
            0 <= i < x.len() && (#[trigger] x[i]).0 == key && x[i].1 is Some
                && x[i].1->0.contains(other);
        if known && i == at {
            assert(y[last].1->0.contains(other));
        } else {
            let j = if known && i > at {
                i - 1
            } else {
                i
            };
            assert(after[j] == cached[i]);
            assert(y[j] == x[i]);
        }
    }
    if key == table_key(table, parts) && other == id {
        assert(y[last].1->0.contains(other));
    }
    if is_listed(y, key, other) {
        let j = choose|j: int|
            0 <= j < y.len() && (#[trigger] y[j]).0 == key && y[j].1 is Some
                && y[j].1->0.contains(other);
        if j == last {
            if other != id {
                assert(known);
                assert(x[at].1->0.contains(other));
            }
        } else {
            let i = if known && j >= at {
                j + 1
            } else {
                j
            };
            assert(after[j] == cached[i]);
            assert(y[j] == x[i]);
        }
    }
}

/// An id that is added under a key of a table leaves all keys such keys, and no set empty.
proof fn lemma_recorded_fits(table: DocidsTable, cached: Cached, parts: Seq<Seq<u8>>, id: u32)
    requires
        keys_fit(table, cached),
        none_empty(cached),
        parts.len() == key_len(table),
    ensures
        keys_fit(table, recorded(cached, parts, id)),
        none_empty(recorded(cached, parts, id)),
{
    let after = recorded(cached, parts, id);
    assert forall|i: int| 0 <= i < after.len() implies (#[trigger] after[i]).0.len() == key_len(
        table,
    ) && inhabited(after[i].1) by {
        if i == after.len() - 1 {
            assert(after[i].1.contains(id));
        } else {
            let j = if has_key(cached, parts) && i >= place_of(cached, parts) {
                i + 1
            } else {
                i
            };
            assert(after[i] == cached[j]);
        }
    }
}

/// Adding an id under each of the pairs adds it to what is listed under their keys.
proof fn lemma_pairs_recorded(cached: Cached, pairs: Seq<(Seq<u8>, Seq<u8>, u8)>, id: u32)
    requires
        keys_distinct(cached),
        keys_fit(DocidsTable::Pairs, cached),
        none_empty(cached),
    ensures
        keys_distinct(pairs_recorded(cached, pairs, id)),
        keys_fit(DocidsTable::Pairs, pairs_recorded(cached, pairs, id)),
        none_empty(pairs_recorded(cached, pairs, id)),
        forall|key: Seq<u8>, other: u32| #[trigger]
            is_listed(
                cached_listing(DocidsTable::Pairs, pairs_recorded(cached, pairs, id)),
                key,
                other,
            ) <==> {
                ||| is_listed(cached_listing(DocidsTable::Pairs, cached), key, other)
                ||| other == id && has_pair(pairs, key)
            },
    decreases pairs.len(),
{
    if pairs.len() > 0 {
        let rest = pairs.drop_last();
        let parts = pair_parts(pairs.last());
        let before = pairs_recorded(cached, rest, id);
        let after = pairs_recorded(cached, pairs, id);
        lemma_pairs_recorded(cached, rest, id);
        lemma_record(before, parts, id);
        lemma_recorded_fits(DocidsTable::Pairs, before, parts, id);
        assert forall|key: Seq<u8>, other: u32| #[trigger]
            is_listed(cached_listing(DocidsTable::Pairs, after), key, other) <==> {
                ||| is_listed(cached_listing(DocidsTable::Pairs, cached), key, other)
                ||| other == id && has_pair(pairs, key)
            } by {
            lemma_recorded_listed(DocidsTable::Pairs, before, parts, id, key, other);
            assert(is_listed(cached_listing(DocidsTable::Pairs, before), key, other) <==> {
                ||| is_listed(cached_listing(DocidsTable::Pairs, cached), key, other)
                ||| other == id && has_pair(rest, key)
            });
            if has_pair(rest, key) {
                let k = choose|k: int|
                    0 <= k < rest.len() && table_key(
                        DocidsTable::Pairs,
                        pair_parts(#[trigger] rest[k]),
                    ) == key;
                assert(pairs[k] == rest[k]);
            }
            if key == table_key(DocidsTable::Pairs, parts) {
                assert(pairs[pairs.len() - 1] == pairs.last());
                assert(has_pair(pairs, key));
            }
            if has_pair(pairs, key) {
                let k = choose|k: int|
                    0 <= k < pairs.len() && table_key(
                        DocidsTable::Pairs,
                        pair_parts(#[trigger] pairs[k]),
                    ) == key;
                if k < rest.len() {
                    assert(rest[k] == pairs[k]);
                }
            }
        }
    }
}

/// Turning the first cached sets into entries keeps what is listed under keys that LMDB accepts.
proof fn lemma_driven_out(table: DocidsTable, cached: Cached, out: int, entries: Entries)
    requires
        0 <= out <= cached.len(),
        all_read_back(table, cached.take(out)),
        none_empty(cached),
        all_intact(table, entries),
    ensures
        all_intact(table, entries + docids_entries(table, cached.take(out))),
        forall|key: Seq<u8>, id: u32|
            valid_key(key) ==> #[trigger] has_listed(
                table,
                cached.skip(out),
                entries + docids_entries(table, cached.take(out)),
                key,
                id,
            ) == has_listed(table, cached, entries, key, id),
{
    let first = cached.take(out);
    let rest = cached.skip(out);
    let added = docids_entries(table, first);
    assert(none_empty(first)) by {
        assert forall|i: int| 0 <= i < first.len() implies inhabited((#[trigger] first[i]).1) by {
            assert(first[i] == cached[i]);
        }
    }
    lemma_entries_list(table, first);
    assert(cached_listing(table, cached) =~= cached_listing(table, first) + cached_listing(
        table,
        rest,
    ));
    assert(entries_listing(table, entries + added) =~= entries_listing(table, entries)
        + entries_listing(table, added));
    assert forall|key: Seq<u8>, id: u32| valid_key(key) implies #[trigger] has_listed(
        table,
        rest,
        entries + added,
        key,
        id,
    ) == has_listed(table, cached, entries, key, id) by {
        lemma_listed_concat(cached_listing(table, first), cached_listing(table, rest), key, id);
        lemma_listed_concat(
            entries_listing(table, entries),
            entries_listing(table, added),
            key,
            id,
        );
        assert(is_listed(entries_listing(table, added), key, id) <==> valid_key(key)
            && is_listed(cached_listing(table, first), key, id));
    }
}

/// Takes the least recently used sets out of a cache.
fn pop_lrus(cache: &mut DocidsCache, count: usize) -> (lrus: Vec<(CacheKey, RoaringBitmap)>)
    requires
        old(cache).wf(),
        count <= old(cache)@.len(),
    ensures
        final(cache).wf(),
        final(cache)@ == old(cache)@.skip(count as int),
        cached_views(lrus@) == old(cache)@.take(count as int),
        forall|i: int| 0 <= i < lrus@.len() ==> bitmap_sound((#[trigger] lrus@[i]).1),
{
    let ghost before = cache@;
    let mut lrus: Vec<(CacheKey, RoaringBitmap)> = Vec::new();
    assert(cache@ =~= before.skip(0));
    assert(cached_views(lrus@) =~= before.take(0));
    let mut i: usize = 0;
    while i < count
        invariant
            i <= count,
            count <= before.len(),
            cache.wf(),
            cache@ == before.skip(i as int),
            cached_views(lrus@) == before.take(i as int),
            forall|j: int| 0 <= j < lrus@.len() ==> bitmap_sound((#[trigger] lrus@[j]).1),
        decreases count - i,
    {
        match cache.pop_front() {
            Some(lru) => {
                let ghost views = cached_views(lrus@);
                lrus.push(lru);
                assert(cached_views(lrus@) =~= views.push((key_parts(lru.0@), bitmap_ids(lru.1))));
                assert(cached_views(lrus@) =~= before.take(i + 1));
                assert(cache@ =~= before.skip(i + 1));
            },
            None => {},
        }
        i += 1;
    }
    lrus
}

/// What the caches of a store had as sets under keys of a table are sound bitmaps under such keys.
proof fn lemma_lrus_sound(
    table: DocidsTable,
    cached: Cached,
    lrus: Seq<(CacheKey, RoaringBitmap)>,
    count: int,
)
    requires
        keys_fit(table, cached),
        0 <= count <= cached.len(),
        cached_views(lrus) == cached.take(count),
        forall|i: int| 0 <= i < lrus.len() ==> bitmap_sound((#[trigger] lrus[i]).1),
    ensures
        all_sound(table, lrus),
{
    assert(cached_views(lrus).len() == lrus.len());
    assert forall|i: int| 0 <= i < lrus.len() implies bitmap_sound((#[trigger] lrus[i]).1)
        && lrus[i].0@.len() == key_len(table) by {
        assert(cached_views(lrus)[i] == cached[i]);
        assert(cached[i].0.len() == key_len(table));
    }
}

/// The store of one indexer.
pub struct Store {
    word_docids: DocidsCache,
    word_docids_limit: usize,
    words_pairs_proximities_docids: DocidsCache,
    words_pairs_proximities_docids_limit: usize,
    documents_ids: RoaringBitmap,
    options: ChunkOptions,
    tables: Tables,
}

impl View for Store {
    type V = StoreView;

    closed spec fn view(&self) -> StoreView {
        StoreView {
            word_docids: self.word_docids@,
            word_docids_limit: self.word_docids_limit,
            words_pairs_proximities_docids: self.words_pairs_proximities_docids@,
            words_pairs_proximities_docids_limit: self.words_pairs_proximities_docids_limit,
            documents_ids: bitmap_ids(self.documents_ids),
            options: self.options,
            tables: self.tables@,
        }
    }
}

impl Store {
    /// Whether the caches hold each key once and no more keys than they may, the keys are those of
    /// their tables, and the entries hold what merging and LMDB accept.
    pub closed spec fn wf(&self) -> bool {
        &&& self.word_docids.wf()
        &&& self.words_pairs_proximities_docids.wf()
        &&& bitmap_sound(self.documents_ids)
        &&& well_kept(self@)
    }

    /// What a well-formed store keeps.
    pub proof fn lemma_wf(&self)
        requires
            self.wf(),
        ensures
            well_kept(self@),
    {
    }

    /// An empty store. The memory is divided among the sorters.
    pub fn new(
        linked_hash_map_size: usize,
        max_nb_chunks: Option<usize>,
        max_memory: Option<usize>,
        chunk_compression_type: CompressionType,
        chunk_compression_level: Option<u32>,
        chunk_fusing_shrink_size: Option<u64>,
    ) -> (store: Store)
        requires
            linked_hash_map_size <= usize::MAX / 128,
        ensures
            store.wf(),
            store@ == (StoreView {
                word_docids: Cached::empty(),
                word_docids_limit: linked_hash_map_size,
                words_pairs_proximities_docids: Cached::empty(),
                words_pairs_proximities_docids_limit: linked_hash_map_size,
                documents_ids: Set::empty(),
                options: (ChunkOptions {
                    compression_type: chunk_compression_type,
                    compression_level: chunk_compression_level,
                    fusing_shrink_size: chunk_fusing_shrink_size,
                    max_nb_chunks,
                    max_memory: sorter_memory(max_memory),
                }),
                tables: no_entries(),
            }),
    {
        let max_memory = match max_memory {
            Some(memory) => if memory / SORTERS > MIN_SORTER_MEMORY {
                Some(memory / SORTERS)
            } else {
                Some(MIN_SORTER_MEMORY)
            },
            None => None,
        };
        let options = ChunkOptions {
            compression_type: chunk_compression_type,
            compression_level: chunk_compression_level,
            fusing_shrink_size: chunk_fusing_shrink_size,
            max_nb_chunks,
            max_memory,
        };
        Store {
            word_docids: DocidsCache::with_capacity(linked_hash_map_size),
            word_docids_limit: linked_hash_map_size,
            words_pairs_proximities_docids: DocidsCache::with_capacity(linked_hash_map_size),
            words_pairs_proximities_docids_limit: linked_hash_map_size,
            documents_ids: RoaringBitmap::new(),
            options,
            tables: Tables::new(),
        }
    }

    /// How the tables are written.
    pub fn options(&self) -> (options: ChunkOptions)
        ensures
            options == self@.options,
    {
        self.options
    }

    /// Hands the entries out that were not handed out yet.
    pub fn take_entries(&mut self) -> (tables: Tables)
        requires
            old(self).wf(),
        ensures
            final(self).wf(),
            tables@ == old(self)@.tables,
            final(self)@ == (StoreView { tables: no_entries(), ..old(self)@ }),
    {
        let mut tables = Tables::new();
        core::mem::swap(&mut tables, &mut self.tables);
        tables
    }

    /// Adds a document to those of a word. If the word is new and the cache of words is full with
    /// it, the least recently used word leaves the cache for an entry, so that the next word does
    /// not make the cache grow.
    pub fn insert_word_docid(&mut self, word: &[u8], id: u32)
        requires
            old(self).wf(),
        ensures
            final(self).wf(),
            final(self)@ == word_inserted(old(self)@, word@, id),
            forall|key: Seq<u8>, other: u32|
                valid_key(key) ==> (#[trigger] has_docid(
                    final(self)@,
                    DocidsTable::Words,
                    key,
                    other,
                ) <==> has_docid(old(self)@, DocidsTable::Words, key, other) || key == word@
                    && other == id),
    {
        let ghost before = self@;
        let mut key: CacheKey = Vec::new();
        key.push(to_bytes(word));
        let ghost parts = key_parts(key@);
        assert(parts =~= seq![word@]);
        let ghost cached = recorded(before.word_docids, parts, id);
        proof {
            self.word_docids.lemma_wf();
            lemma_record(before.word_docids, parts, id);
            lemma_recorded_fits(DocidsTable::Words, before.word_docids, parts, id);
        }
        let known = self.word_docids.record(key, id);
        let ghost mut out: int = 0;
        if !known && self.word_docids.len() == self.word_docids_limit {
            let lru = pop_lrus(&mut self.word_docids, 1);
            proof {
                out = 1;
                lemma_lrus_sound(DocidsTable::Words, cached, lru@, 1);
            }
            write_word_docids(&mut self.tables.word_docids, &lru);
            assert(all_read_back(DocidsTable::Words, cached.take(1)));
        }
        proof {
            if out == 0 {
                assert(cached.skip(0) =~= cached);
                assert(before.tables.word_docids + docids_entries(
                    DocidsTable::Words,
                    cached.take(0),
                ) =~= before.tables.word_docids);
            }
            lemma_driven_out(DocidsTable::Words, cached, out, before.tables.word_docids);
            assert forall|key: Seq<u8>, other: u32| valid_key(key) implies (#[trigger] has_docid(
                self@,
                DocidsTable::Words,
                key,
                other,
            ) <==> has_docid(before, DocidsTable::Words, key, other) || key == word@ && other
                == id) by {
                lemma_recorded_listed(
                    DocidsTable::Words,
                    before.word_docids,
                    parts,
                    id,
                    key,
                    other,
                );
                assert(has_listed(
                    DocidsTable::Words,
                    cached.skip(out),
                    before.tables.word_docids + docids_entries(
                        DocidsTable::Words,
                        cached.take(out),
                    ),
                    key,
                    other,
                ) == has_listed(
                    DocidsTable::Words,
                    cached,
                    before.tables.word_docids,
                    key,
                    other,
                ));
            }
            assert forall|i: int| 0 <= i < self@.word_docids.len() implies (
            #[trigger] self@.word_docids[i]).0.len() == key_len(DocidsTable::Words) && inhabited(
                self@.word_docids[i].1,
            ) by {
                assert(self@.word_docids[i] == cached[i + out]);
            }
            assert(self@ =~= word_inserted(before, word@, id));
        }
    }

    /// Adds a document to those of pairs of words. What is then above the limit of the cache
    /// leaves it for entries, the least recently used first.
    pub fn insert_words_pairs_proximities_docids(&mut self, pairs: &Vec<PairProximity>, id: u32)
        requires
            old(self).wf(),
        ensures
            final(self).wf(),
            final(self)@ == pairs_inserted(old(self)@, pair_views(pairs@), id),
            forall|key: Seq<u8>, other: u32|
                valid_key(key) ==> (#[trigger] has_docid(
                    final(self)@,
                    DocidsTable::Pairs,
                    key,
                    other,
                ) <==> has_docid(old(self)@, DocidsTable::Pairs, key, other) || other == id
                    && has_pair(pair_views(pairs@), key)),
    {
        let ghost before = self@;
        let ghost start = before.words_pairs_proximities_docids;
        let ghost views = pair_views(pairs@);
        let mut i: usize = 0;
        while i < pairs.len()
            invariant
                i <= pairs@.len(),
                views == pair_views(pairs@),
                self.words_pairs_proximities_docids.wf(),
                self.words_pairs_proximities_docids@ == pairs_recorded(
                    start,
                    views.take(i as int),
                    id,
                ),
                start == before.words_pairs_proximities_docids,
                self.word_docids.wf(),
                bitmap_sound(self.documents_ids),
                well_kept(before),
                self@ == (StoreView {
                    words_pairs_proximities_docids: self@.words_pairs_proximities_docids,
                    ..before
                }),
            decreases pairs@.len() - i,
        {
            let pair = &pairs[i];
            let mut prox: Vec<u8> = Vec::new();
            prox.push(pair.proximity);
            let mut key: CacheKey = Vec::new();
            key.push(to_bytes(pair.first.as_slice()));
            key.push(to_bytes(pair.second.as_slice()));
            key.push(prox);
            proof {
                assert(prox@ =~= seq![pair.proximity]);
                assert(key_parts(key@) =~= pair_parts(pair@));
                assert(views.take(i + 1).drop_last() =~= views.take(i as int));
                assert(views.take(i + 1).last() == pair@);
            }
            self.words_pairs_proximities_docids.record(key, id);
            i += 1;
        }
        assert(views.take(i as int) =~= views);
        let ghost cached = pairs_recorded(start, views, id);
        let ghost mut out: int = 0;
        let len = self.words_pairs_proximities_docids.len();
        if len > self.words_pairs_proximities_docids_limit {
            let count = len - self.words_pairs_proximities_docids_limit;
            let lrus = pop_lrus(&mut self.words_pairs_proximities_docids, count);
            proof {
                out = count as int;
                lemma_pairs_recorded(start, views, id);
                lemma_lrus_sound(DocidsTable::Pairs, cached, lrus@, out);
            }
            write_words_pairs_proximities(
                &mut self.tables.words_pairs_proximities_docids,
                &lrus,
            );
            assert(all_read_back(DocidsTable::Pairs, cached.take(out)));
        }
        proof {
            let entries = before.tables.words_pairs_proximities_docids;
            lemma_pairs_recorded(start, views, id);
            if out == 0 {
                assert(cached.skip(0) =~= cached);
                assert(entries + docids_entries(DocidsTable::Pairs, cached.take(0)) =~= entries);
            }
            assert(out == overflow(cached, before.words_pairs_proximities_docids_limit));
            lemma_driven_out(DocidsTable::Pairs, cached, out, entries);
            assert forall|key: Seq<u8>, other: u32| valid_key(key) implies (#[trigger] has_docid(
                self@,
                DocidsTable::Pairs,
                key,
                other,
            ) <==> has_docid(before, DocidsTable::Pairs, key, other) || other == id && has_pair(
                views,
                key,
            )) by {
                assert(has_listed(
                    DocidsTable::Pairs,
                    cached.skip(out),
                    entries + docids_entries(DocidsTable::Pairs, cached.take(out)),
                    key,
                    other,
                ) == has_listed(DocidsTable::Pairs, cached, entries, key, other));
                assert(is_listed(cached_listing(DocidsTable::Pairs, cached), key, other) <==> {
                    ||| is_listed(cached_listing(DocidsTable::Pairs, start), key, other)
                    ||| other == id && has_pair(views, key)
                });
            }
            assert forall|i: int| 0 <= i < self@.words_pairs_proximities_docids.len() implies (
            #[trigger] self@.words_pairs_proximities_docids[i]).0.len() == key_len(
                DocidsTable::Pairs,
            ) && inhabited(self@.words_pairs_proximities_docids[i].1) by {
                assert(self@.words_pairs_proximities_docids[i] == cached[i + out]);
            }
            self.words_pairs_proximities_docids.lemma_wf();
            assert(self@ =~= pairs_inserted(before, views, id));
        }
    }

    /// Writes the names of the fields.
    pub fn write_fields_ids_map(&mut self, map: &FieldsIdsMap)
        requires
            old(self).wf(),
        ensures
            final(self).wf(),
            final(self)@ == fields_written(old(self)@, map@),
    {
        let ghost before = self@;
        let entry = Entry { key: main_key(FIELDS_IDS_MAP_KEY), value: map.to_json() };
        self.tables.main.push(entry);
        proof {
            lemma_main_keys_valid();
        }
        assert(self@.tables.main =~= before.tables.main.push(entry@));
        assert(self@ =~= fields_written(before, map@));
    }

    /// Adds a document, given its words.
    pub fn write_document(&mut self, id: u32, words: &WordsPositions, record: &Vec<String>)
        requires
            old(self).wf(),
            words.wf(),
            storable(field_texts(record@)),
        ensures
            final(self).wf(),
            final(self)@ == document_written(old(self)@, id, words@, field_texts(record@)),
            forall|table: DocidsTable, key: Seq<u8>, other: u32|
                valid_key(key) ==> (#[trigger] has_docid(final(self)@, table, key, other)
                    <==> has_docid(old(self)@, table, key, other) || other == id && names_key(
                    table,
                    words@,
                    key,
                )),
    {
        let ghost before = self@;
        // The pairs of words that are close to each other.
        let pairs = compute_words_pair_proximities(words);
        proof {
            lemma_close_pairs_unique(pair_views(pairs@), close_pairs(words@), words@);
        }
        self.insert_words_pairs_proximities_docids(&pairs, id);
        let ghost start = self@;
        // The document is one of those of each of its words.
        let mut i: usize = 0;
        while i < words.len()
            invariant
                i <= words@.len(),
                self.wf(),
                self@ == words_inserted(start, words@.take(i as int), id),
                self@.words_pairs_proximities_docids == start.words_pairs_proximities_docids,
                self@.tables.words_pairs_proximities_docids
                    == start.tables.words_pairs_proximities_docids,
                forall|key: Seq<u8>, other: u32|
                    valid_key(key) ==> (#[trigger] has_docid(
                        self@,
                        DocidsTable::Words,
                        key,
                        other,
                    ) <==> has_docid(start, DocidsTable::Words, key, other) || other == id
                        && has_word(words@.take(i as int), key)),
            decreases words@.len() - i,
        {
            let ghost previous = self@;
            self.insert_word_docid(words.get(i).word.as_slice(), id);
            proof {
                let done = words@.take(i as int);
                let next = words@.take(i + 1);
                assert(next.drop_last() =~= done);
                assert(next.last() == words@[i as int]);
                assert forall|key: Seq<u8>| has_word(next, key) <==> has_word(done, key) || key
                    == words@[i as int].0 by {
                    if has_word(done, key) {
                        let j = choose|j: int| 0 <= j < done.len() && (#[trigger] done[j]).0 == key;
                        assert(next[j].0 == key);
                    }
                    if key == words@[i as int].0 {
                        assert(next[i as int].0 == key);
                    }
                    if has_word(next, key) {
                        let j = choose|j: int| 0 <= j < next.len() && (#[trigger] next[j]).0 == key;
                        if j < i {
                            assert(done[j].0 == key);
                        }
                    }
                }
                assert forall|key: Seq<u8>, other: u32| valid_key(key) implies (
                #[trigger] has_docid(self@, DocidsTable::Words, key, other) <==> has_docid(
                    start,
                    DocidsTable::Words,
                    key,
                    other,
                ) || other == id && has_word(next, key)) by {
                    assert(has_docid(previous, DocidsTable::Words, key, other) <==> has_docid(
                        start,
                        DocidsTable::Words,
                        key,
                        other,
                    ) || other == id && has_word(done, key));
                }
            }
            i += 1;
        }
        assert(words@.take(i as int) =~= words@);
        let ghost middle = self@;
        let bytes = write_fields(record);
        self.documents_ids.insert(id);
        let entry = Entry { key: to_be_bytes(id), value: bytes };
        self.tables.documents.push(entry);
        write_docid_word_positions(&mut self.tables.docid_word_positions, id, words);
        proof {
            lemma_written_keys_valid(DocidsTable::Words, Cached::empty(), id, words@);
            assert(self@.tables.documents =~= middle.tables.documents.push(entry@));
            assert(self@ =~= document_written(before, id, words@, field_texts(record@)));
            assert forall|table: DocidsTable, key: Seq<u8>, other: u32| valid_key(key) implies (
            #[trigger] has_docid(self@, table, key, other) <==> has_docid(before, table, key, other)
                || other == id && names_key(table, words@, key)) by {
                assert(has_docid(self@, table, key, other) == has_docid(middle, table, key, other));
                match table {
                    DocidsTable::Words => {
                        assert(has_docid(start, table, key, other) == has_docid(
                            before,
                            table,
                            key,
                            other,
                        ));
                    },
                    DocidsTable::Pairs => {
                        assert(has_docid(middle, table, key, other) == has_docid(
                            start,
                            table,
                            key,
                            other,
                        ));
                    },
                }
            }
        }
    }

    /// Adds a record as a document.
    pub fn index_record(&mut self, id: u32, record: &Vec<String>)
        requires
            old(self).wf(),
            storable(field_texts(record@)),
        ensures
            final(self).wf(),
            final(self)@ == record_indexed(old(self)@, id, field_texts(record@)),
            forall|table: DocidsTable, key: Seq<u8>, other: u32|
                valid_key(key) ==> (#[trigger] has_docid(final(self)@, table, key, other)
                    <==> has_docid(old(self)@, table, key, other) || other == id && names_key(
                    table,
                    record_words(field_texts(record@)),
                    key,
                )),
    {
        let words = words_positions(record);
        proof {
            let texts = field_texts(record@);
            lemma_words_unique(words@, record_words(texts), texts);
        }
        self.write_document(id, &words, record);
    }

    /// Ends the store: what is left in it becomes entries.
    pub fn finish(self) -> (tables: Tables)
        requires
            self.wf(),
        ensures
            tables@ == finished(self@),
            roaring_ids(roaring_bytes(self@.documents_ids)) == Some(self@.documents_ids),
            all_intact(DocidsTable::Words, tables@.word_docids),
            all_intact(DocidsTable::Pairs, tables@.words_pairs_proximities_docids),
            all_keys_valid(tables@.docid_word_positions),
            all_keys_valid(tables@.documents),
            all_keys_valid(tables@.main),
            forall|table: DocidsTable, key: Seq<u8>, id: u32|
                valid_key(key) ==> (#[trigger] is_listed(
                    entries_listing(table, docids_of(tables@, table)),
                    key,
                    id,
                ) <==> has_docid(self@, table, key, id)),
    {
        let ghost before = self@;
        let mut tables = self.tables;
        let mut word_docids = self.word_docids;
        let mut words_pairs_proximities_docids = self.words_pairs_proximities_docids;
        let count = word_docids.len();
        let words = pop_lrus(&mut word_docids, count);
        proof {
            lemma_lrus_sound(DocidsTable::Words, before.word_docids, words@, count as int);
            assert(before.word_docids.take(count as int) =~= before.word_docids);
        }
        write_word_docids(&mut tables.word_docids, &words);
        write_documents_ids(&mut tables.main, &self.documents_ids);
        let count = words_pairs_proximities_docids.len();
        let pairs = pop_lrus(&mut words_pairs_proximities_docids, count);
        proof {
            lemma_lrus_sound(
                DocidsTable::Pairs,
                before.words_pairs_proximities_docids,
                pairs@,
                count as int,
            );
            assert(before.words_pairs_proximities_docids.take(count as int)
                =~= before.words_pairs_proximities_docids);
        }
        write_words_pairs_proximities(&mut tables.words_pairs_proximities_docids, &pairs);
        proof {
            lemma_main_keys_valid();
            assert(tables@ =~= finished(before));
            lemma_finished(DocidsTable::Words, before);
            lemma_finished(DocidsTable::Pairs, before);
            assert forall|table: DocidsTable, key: Seq<u8>, id: u32| valid_key(key) implies (
            #[trigger] is_listed(entries_listing(table, docids_of(tables@, table)), key, id)
                <==> has_docid(before, table, key, id)) by {
                match table {
                    DocidsTable::Words => {},
                    DocidsTable::Pairs => {},
                }
            }
        }
        tables
    }
}

/// Once all of a cache is written, the entries list all that the store had.
proof fn lemma_finished(table: DocidsTable, s: StoreView)
    requires
        well_kept(s),
        all_read_back(table, cache_of(s, table)),
    ensures
        all_intact(table, docids_of(finished(s), table)),
        forall|key: Seq<u8>, id: u32|
            valid_key(key) ==> (#[trigger] is_listed(
                entries_listing(table, docids_of(finished(s), table)),
                key,
                id,
            ) <==> has_docid(s, table, key, id)),
{
    let cached = cache_of(s, table);
    let entries = docids_of(s.tables, table);
    let all = docids_of(finished(s), table);
    let n = cached.len() as int;
    assert(cached.take(n) =~= cached);
    lemma_driven_out(table, cached, n, entries);
    assert forall|key: Seq<u8>, id: u32| valid_key(key) implies (#[trigger] is_listed(
        entries_listing(table, all),
        key,
        id,
    ) <==> has_docid(s, table, key, id)) by {
        assert(has_listed(
            table,
            cached.skip(n),
            entries + docids_entries(table, cached.take(n)),
            key,
            id,
        ) == has_listed(table, cached, entries, key, id));
        assert(cached_listing(table, cached.skip(n)) =~= Listing::empty());
    }
}

/// What a store keeps: its caches hold keys of their tables, as many as they may, and no empty set,
/// its entries of document ids hold sets that are not empty and that merging accepts, and LMDB
/// accepts the keys of all entries.
pub open spec fn well_kept(s: StoreView) -> bool {
    &&& keys_distinct(s.word_docids)
    &&& keys_distinct(s.words_pairs_proximities_docids)
    &&& keys_fit(DocidsTable::Words, s.word_docids)
    &&& keys_fit(DocidsTable::Pairs, s.words_pairs_proximities_docids)
    &&& none_empty(s.word_docids)
    &&& none_empty(s.words_pairs_proximities_docids)
    &&& s.word_docids_limit > 0 ==> s.word_docids.len() < s.word_docids_limit
    &&& s.words_pairs_proximities_docids.len() <= s.words_pairs_proximities_docids_limit
    &&& all_intact(DocidsTable::Words, s.tables.word_docids)
    &&& all_intact(DocidsTable::Pairs, s.tables.words_pairs_proximities_docids)
    &&& all_keys_valid(s.tables.docid_word_positions)
    &&& all_keys_valid(s.tables.documents)
    &&& all_keys_valid(s.tables.main)
}

/// A document is to be found under each word that its record has at some position, and under no
/// other key of a word.
pub proof fn lemma_word_named(record: Seq<Seq<char>>, key: Seq<u8>)
    ensures
        names_key(DocidsTable::Words, record_words(record), key) <==> exists|position: u32|
            #[trigger] word_at(record, position as int) == Some(key),
{
    lemma_words_exist(record);
    lemma_has_word(record_words(record), record, key);
}

/// A document is to be found under the key of two of its words, in this order, and their shortest
/// proximity, where that is between 1 and 7, and under no other key of a pair.
pub proof fn lemma_pair_named(words: Seq<(Seq<u8>, Seq<u32>)>, key: Seq<u8>)
    requires
        words_in_order(words),
    ensures
        names_key(DocidsTable::Pairs, words, key) <==> exists|i: int, j: int, prox: u8|
            #![trigger words[i], words[j], is_closest(prox as int, words[i].1, words[j].1)]
            {
                &&& 0 <= i < words.len()
                &&& 0 <= j < words.len()
                &&& is_closest(prox as int, words[i].1, words[j].1)
                &&& key == words[i].0 + seq![0u8] + words[j].0 + seq![prox]
            },
{
    let pairs = close_pairs(words);
    lemma_close_pairs_exist(words);
    if has_pair(pairs, key) {
        let k = choose|k: int|
            0 <= k < pairs.len() && table_key(DocidsTable::Pairs, pair_parts(#[trigger] pairs[k]))
                == key;
        assert(is_close_pair(pairs[k], words));
        let (i, j) = choose|i: int, j: int|
            0 <= i < words.len() && 0 <= j < words.len() && pair_is_of(pairs[k], words, i, j);
        assert(is_closest(pairs[k].2 as int, words[i].1, words[j].1));
    }
    if exists|i: int, j: int, prox: u8|
        #![trigger words[i], words[j], is_closest(prox as int, words[i].1, words[j].1)]
        {
            &&& 0 <= i < words.len()
            &&& 0 <= j < words.len()
            &&& is_closest(prox as int, words[i].1, words[j].1)
            &&& key == words[i].0 + seq![0u8] + words[j].0 + seq![prox]
        } {
        let (i, j, prox) = choose|i: int, j: int, prox: u8|
            #![trigger words[i], words[j], is_closest(prox as int, words[i].1, words[j].1)]
            {
                &&& 0 <= i < words.len()
                &&& 0 <= j < words.len()
                &&& is_closest(prox as int, words[i].1, words[j].1)
                &&& key == words[i].0 + seq![0u8] + words[j].0 + seq![prox]
            };
        assert(has_close(words[i].1, words[j].1));
        let k = choose|k: int|
            0 <= k < pairs.len() && #[trigger] pair_is_of(pairs[k], words, i, j);
        lemma_closest_unique(prox, pairs[k].2, words[i].1, words[j].1);
        assert(has_pair(pairs, key));
    }
}

/// Each sorter gets a third of the memory, but a mebibyte at least.
pub proof fn lemma_sorter_memory(memory: usize)
    ensures
        sorter_memory(None) is None,
        memory / 3 >= 1048576 ==> sorter_memory(Some(memory)) == Some((memory / 3) as usize),
        memory / 3 < 1048576 ==> sorter_memory(Some(memory)) == Some(1048576usize),
{
}

/// A new word that fills the cache drives out the least recently used one, or itself where it is
/// alone. No other word leaves the cache.
pub proof fn lemma_word_leaves(s: StoreView, word: Seq<u8>, id: u32)
    requires
        keys_distinct(s.word_docids),
        !has_key(s.word_docids, seq![word]),
    ensures
        ({
            let t = word_inserted(s, word, id);
            let new = (seq![word], set![id]);
            if s.word_docids.len() + 1 == s.word_docids_limit {
                &&& t.word_docids == s.word_docids.push(new).drop_first()
                &&& t.tables.word_docids == s.tables.word_docids + docids_entries(
                    DocidsTable::Words,
                    seq![s.word_docids.push(new)[0]],
                )
            } else {
                &&& t.word_docids == s.word_docids.push(new)
                &&& t.tables == s.tables
            }
        }),
{
    let t = word_inserted(s, word, id);
    let new = (seq![word], set![id]);
    assert(ids_under(s.word_docids, seq![word]).insert(id) =~= set![id]);
    let cached = recorded(s.word_docids, seq![word], id);
    assert(cached =~= s.word_docids.push(new));
    assert(cached.take(1) =~= seq![cached[0]]);
    assert(cached.skip(1) =~= cached.drop_first());
}

/// A word that is cached stays so, and none leaves the cache.
pub proof fn lemma_word_stays(s: StoreView, word: Seq<u8>, id: u32)
    requires
        keys_distinct(s.word_docids),
        has_key(s.word_docids, seq![word]),
    ensures
        word_inserted(s, word, id).word_docids == recorded(s.word_docids, seq![word], id),
        word_inserted(s, word, id).tables == s.tables,
{
}

/// After pairs are added, the cache holds as many of them as it may, the most recently used ones in
/// their order, and the others are in entries.
pub proof fn lemma_pairs_leave(s: StoreView, pairs: Seq<(Seq<u8>, Seq<u8>, u8)>, id: u32)
    ensures
        ({
            let t = pairs_inserted(s, pairs, id);
            let all = pairs_recorded(s.words_pairs_proximities_docids, pairs, id);
            let limit = s.words_pairs_proximities_docids_limit as int;
            &&& all.len() <= limit ==> t.words_pairs_proximities_docids == all && t.tables
                == s.tables
            &&& all.len() > limit ==> {
                &&& t.words_pairs_proximities_docids.len() == limit
                &&& forall|i: int|
                    0 <= i < limit ==> #[trigger] t.words_pairs_proximities_docids[i] == all[all.len()
                        - limit + i]
                &&& t.tables.words_pairs_proximities_docids
                    == s.tables.words_pairs_proximities_docids + docids_entries(
                    DocidsTable::Pairs,
                    all.take(all.len() - limit),
                )
            }
        }),
{
    let t = pairs_inserted(s, pairs, id);
    let all = pairs_recorded(s.words_pairs_proximities_docids, pairs, id);
    let limit = s.words_pairs_proximities_docids_limit as int;
    if all.len() <= limit {
        assert(t.words_pairs_proximities_docids =~= all);
        assert(t.tables =~= s.tables);
    }
}

/// The view of tables has the entries of each table.
pub proof fn lemma_tables_view(tables: Tables)
    ensures
        tables@.main == entry_views(tables.main@),
        tables@.word_docids == entry_views(tables.word_docids@),
        tables@.docid_word_positions == entry_views(tables.docid_word_positions@),
        tables@.words_pairs_proximities_docids == entry_views(
            tables.words_pairs_proximities_docids@,
        ),
        tables@.documents == entry_views(tables.documents@),
{
}

} // verus!
