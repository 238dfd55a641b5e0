//! The entries that are written into the tables.
use crate::bytes::{be_bytes, to_be_bytes, to_bytes};
use crate::cache::{key_parts, CacheKey, Cached};
use crate::codec::{
    bo_bytes, cbo_bytes, cbo_ids, cbo_intact, lemma_bo_read_back, words_in, BoRoaringBitmapCodec,
    CboRoaringBitmapCodec,
};
use crate::docids::{
    bitmap_from_ids, bitmap_ids, bitmap_sound, roaring_bytes, roaring_ids, roaring_intact,
    serialize_bitmap,
};
use crate::keys::{
    lmdb_key_valid_size, main_key, valid_key, DOCUMENTS_IDS_KEY, WORDS_FST_KEY,
};
use crate::words_fst::WordsFst;
use crate::words_positions::{is_word_up_to, WordsPositions};
use roaring::RoaringBitmap;
use vstd::prelude::*;
use vstd::string::StringSliceAdditionalSpecFns;

verus! {

/// A value under a key of a table.
#[derive(PartialEq, Eq, Debug)]
pub struct Entry {
    pub key: Vec<u8>,
    pub value: Vec<u8>,
}

impl View for Entry {
    type V = (Seq<u8>, Seq<u8>);

    open spec fn view(&self) -> (Seq<u8>, Seq<u8>) {
        (self.key@, self.value@)
    }
}

/// Keys and values, in the order in which they are written.
pub type Entries = Seq<(Seq<u8>, Seq<u8>)>;

/// Entries as keys and values.
pub open spec fn entry_views(entries: Seq<Entry>) -> Entries {
    entries.map_values(|entry: Entry| entry@)
}

/// What is written of a value under a key: nothing, where LMDB would refuse the key.
pub open spec fn written(key: Seq<u8>, value: Seq<u8>) -> Entries {
    if valid_key(key) {
        seq![(key, value)]
    } else {
        Seq::empty()
    }
}

/// A table of sets of document ids.
#[derive(Clone, Copy, PartialEq, Eq, Structural, Debug)]
pub enum DocidsTable {
    /// The documents of each word.
    Words,
    /// The documents in which two words are at a proximity.
    Pairs,
}

/// The key of a pair of words: the words, parted by a zero byte, and their proximity.
pub open spec fn pair_key(parts: Seq<Seq<u8>>) -> Seq<u8> {
    parts[0] + seq![0u8] + parts[1] + parts[2]
}

/// The number of parts of a key.
pub open spec fn key_len(table: DocidsTable) -> int {
    match table {
        DocidsTable::Words => 1,
        DocidsTable::Pairs => 3,
    }
}

/// The key that a table has for the parts of a key.
pub open spec fn table_key(table: DocidsTable, parts: Seq<Seq<u8>>) -> Seq<u8> {
    match table {
        DocidsTable::Words => parts[0],
        DocidsTable::Pairs => pair_key(parts),
    }
}

/// The form in which a table holds a set.
pub open spec fn table_bytes(table: DocidsTable, ids: Set<u32>) -> Seq<u8> {
    match table {
        DocidsTable::Words => roaring_bytes(ids),
        DocidsTable::Pairs => cbo_bytes(ids),
    }
}

/// The set that a value of a table holds.
pub open spec fn table_ids(table: DocidsTable, value: Seq<u8>) -> Option<Set<u32>> {
    match table {
        DocidsTable::Words => roaring_ids(value),
        DocidsTable::Pairs => cbo_ids(value),
    }
}

/// Whether merging accepts a value of a table.
pub open spec fn table_intact(table: DocidsTable, value: Seq<u8>) -> bool {
    match table {
        DocidsTable::Words => roaring_intact(value),
        DocidsTable::Pairs => cbo_intact(value),
    }
}

/// Whether a set is read back from the form in which a table holds it, and merging accepts it.
pub open spec fn reads_back(table: DocidsTable, ids: Set<u32>) -> bool {
    &&& table_ids(table, table_bytes(table, ids)) == Some(ids)
    &&& table_intact(table, table_bytes(table, ids))
}

/// The entries of cached sets.
pub open spec fn docids_entries(table: DocidsTable, cached: Cached) -> Entries
    decreases cached.len(),
{
    if cached.len() == 0 {
        Seq::empty()
    } else {
        docids_entries(table, cached.drop_last()) + written(
            table_key(table, cached.last().0),
            table_bytes(table, cached.last().1),
        )
    }
}

/// The entries of the positions of words under a document id and the words.
pub open spec fn position_entries(id: u32, words: Seq<(Seq<u8>, Seq<u32>)>) -> Entries
    decreases words.len(),
{
    if words.len() == 0 {
        Seq::empty()
    } else {
        position_entries(id, words.drop_last()) + written(
            be_bytes(id) + words.last().0,
            bo_bytes(words.last().1.to_set()),
        )
    }
}

/// Cached sets as keys and ids.
pub open spec fn cached_views(cached: Seq<(CacheKey, RoaringBitmap)>) -> Cached {
    cached.map_values(
        |entry: (CacheKey, RoaringBitmap)| (key_parts(entry.0@), bitmap_ids(entry.1)),
    )
}

/// Whether sets are sound bitmaps under keys of a table.
pub open spec fn all_sound(table: DocidsTable, cached: Seq<(CacheKey, RoaringBitmap)>) -> bool {
    forall|i: int|
        0 <= i < cached.len() ==> bitmap_sound((#[trigger] cached[i]).1) && cached[i].0@.len()
            == key_len(table)
}

/// Whether each of the cached sets is read back from a table.
pub open spec fn all_read_back(table: DocidsTable, cached: Cached) -> bool {
    forall|i: int| 0 <= i < cached.len() ==> reads_back(table, (#[trigger] cached[i]).1)
}

/// Sets of document ids under the keys of a table, `None` for what is no set.
pub type Listing = Seq<(Seq<u8>, Option<Set<u32>>)>;

/// What entries list.
pub open spec fn entries_listing(table: DocidsTable, entries: Entries) -> Listing {
    entries.map_values(|entry: (Seq<u8>, Seq<u8>)| (entry.0, table_ids(table, entry.1)))
}

/// What cached sets list.
pub open spec fn cached_listing(table: DocidsTable, cached: Cached) -> Listing {
    cached.map_values(
        |entry: (Seq<Seq<u8>>, Set<u32>)| (table_key(table, entry.0), Some(entry.1)),
    )
}

/// Whether an id is in a set that is listed under a key.
pub open spec fn is_listed(listing: Listing, key: Seq<u8>, id: u32) -> bool {
    exists|i: int|
        0 <= i < listing.len() && (#[trigger] listing[i]).0 == key && listing[i].1 is Some
            && listing[i].1->0.contains(id)
}

/// Whether there is an id in a set.
pub open spec fn inhabited(ids: Set<u32>) -> bool {
    exists|id: u32| #[trigger] ids.contains(id)
}

/// Whether there is an id in each of the cached sets.
pub open spec fn none_empty(cached: Cached) -> bool {
    forall|i: int| 0 <= i < cached.len() ==> inhabited((#[trigger] cached[i]).1)
}

/// Whether LMDB accepts each key, and merging accepts each value as a set, in which there is an
/// id.
pub open spec fn all_intact(table: DocidsTable, entries: Entries) -> bool {
    forall|i: int|
        0 <= i < entries.len() ==> {
            &&& valid_key((#[trigger] entries[i]).0)
            &&& table_ids(table, entries[i].1) is Some
            &&& inhabited(table_ids(table, entries[i].1)->0)
            &&& table_intact(table, entries[i].1)
        }
}

/// Whether LMDB accepts all keys.
pub open spec fn all_keys_valid(entries: Entries) -> bool {
    forall|i: int| 0 <= i < entries.len() ==> valid_key((#[trigger] entries[i]).0)
}

/// What two lists list together.
pub proof fn lemma_listed_concat(a: Listing, b: Listing, key: Seq<u8>, id: u32)
    ensures
        is_listed(a + b, key, id) <==> is_listed(a, key, id) || is_listed(b, key, id),
{
    let both = a + b;
    if is_listed(a, key, id) {
        let i = choose|i: int|
            0 <= i < a.len() && (#[trigger] a[i]).0 == key && a[i].1 is Some && a[i].1->0.contains(
                id,
            );
        assert(both[i] == a[i]);
    }
    if is_listed(b, key, id) {
        let i = choose|i: int|
            0 <= i < b.len() && (#[trigger] b[i]).0 == key && b[i].1 is Some && b[i].1->0.contains(
                id,
            );
        assert(both[a.len() + i] == b[i]);
    }
    if is_listed(both, key, id) {
        let i = choose|i: int|
            0 <= i < both.len() && (#[trigger] both[i]).0 == key && both[i].1 is Some
                && both[i].1->0.contains(id);
        if i < a.len() {
            assert(both[i] == a[i]);
        } else {
            assert(both[i] == b[i - a.len()]);
        }
    }
}

/// Writing cached sets loses none that has a key which LMDB accepts, and adds none.
pub proof fn lemma_entries_list(table: DocidsTable, cached: Cached)
    requires
        all_read_back(table, cached),
        none_empty(cached),
    ensures
        all_intact(table, docids_entries(table, cached)),
        forall|key: Seq<u8>, id: u32| #[trigger]
            is_listed(entries_listing(table, docids_entries(table, cached)), key, id)
                <==> valid_key(key) && is_listed(cached_listing(table, cached), key, id),
    decreases cached.len(),
{
    let entries = docids_entries(table, cached);
    let listing = entries_listing(table, entries);
    let wanted = cached_listing(table, cached);
    if cached.len() == 0 {
        assert forall|key: Seq<u8>, id: u32| #[trigger]
            is_listed(listing, key, id) <==> valid_key(key) && is_listed(wanted, key, id) by {}
    } else {
        let rest = cached.drop_last();
        let last = cached.last();
        let before = docids_entries(table, rest);
        let added = written(table_key(table, last.0), table_bytes(table, last.1));
        assert(reads_back(table, cached[cached.len() - 1].1));
        assert(inhabited(cached[cached.len() - 1].1));
        assert(none_empty(rest)) by {
            assert forall|i: int| 0 <= i < rest.len() implies inhabited((#[trigger] rest[i]).1) by {
                assert(rest[i] == cached[i]);
            }
        }
        assert(all_read_back(table, rest)) by {
            assert forall|i: int| 0 <= i < rest.len() implies reads_back(
                table,
                (#[trigger] rest[i]).1,
            ) by {
                assert(rest[i] == cached[i]);
            }
        }
        lemma_entries_list(table, rest);
        let one: Listing = seq![(table_key(table, last.0), Some(last.1))];
        assert(wanted =~= cached_listing(table, rest) + one);
        assert(listing =~= entries_listing(table, before) + entries_listing(table, added));
        assert forall|key: Seq<u8>, id: u32| #[trigger]
            is_listed(listing, key, id) <==> valid_key(key) && is_listed(wanted, key, id) by {
            lemma_listed_concat(cached_listing(table, rest), one, key, id);
            lemma_listed_concat(
                entries_listing(table, before),
                entries_listing(table, added),
                key,
                id,
            );
            assert(is_listed(entries_listing(table, before), key, id) <==> valid_key(key)
                && is_listed(cached_listing(table, rest), key, id));
            if valid_key(table_key(table, last.0)) {
                assert(entries_listing(table, added) =~= one);
            } else {
                assert(entries_listing(table, added) =~= Listing::empty());
            }
        }
    }
}

/// Writes a value, unless LMDB would refuse its key.
fn write_entry(entries: &mut Vec<Entry>, key: Vec<u8>, value: Vec<u8>)
    ensures
        entry_views(final(entries)@) == entry_views(old(entries)@) + written(key@, value@),
{
    let ghost before = entry_views(entries@);
    if lmdb_key_valid_size(key.as_slice()) {
        entries.push(Entry { key, value });
    }
    assert(entry_views(entries@) =~= before + written(key@, value@));
}

/// Writes sets of document ids under pairs of words. Where the set is written, it can be read
/// back.
pub fn write_words_pairs_proximities(
    entries: &mut Vec<Entry>,
    pairs: &Vec<(CacheKey, RoaringBitmap)>,
)
    requires
        all_sound(DocidsTable::Pairs, pairs@),
    ensures
        entry_views(final(entries)@) == entry_views(old(entries)@) + docids_entries(
            DocidsTable::Pairs,
            cached_views(pairs@),
        ),
        all_read_back(DocidsTable::Pairs, cached_views(pairs@)),
{
    let ghost before = entry_views(entries@);
    let ghost cached = cached_views(pairs@);
    let mut i: usize = 0;
    assert(entry_views(entries@) =~= before + docids_entries(DocidsTable::Pairs, cached.take(0)));
    while i < pairs.len()
        invariant
            i <= pairs@.len(),
            all_sound(DocidsTable::Pairs, pairs@),
            cached == cached_views(pairs@),
            entry_views(entries@) == before + docids_entries(DocidsTable::Pairs, cached.take(i as int)),
            forall|j: int|
                0 <= j < i ==> reads_back(DocidsTable::Pairs, (#[trigger] cached[j]).1),
        decreases pairs@.len() - i,
    {
        let parts = &pairs[i].0;
        let docids = &pairs[i].1;
        let mut key = to_bytes(parts[0].as_slice());
        key.push(0);
        key.extend_from_slice(parts[1].as_slice());
        // The shortest proximity found between the words.
        key.extend_from_slice(parts[2].as_slice());
        assert(key@ =~= pair_key(key_parts(parts@)));
        let mut buffer: Vec<u8> = Vec::new();
        CboRoaringBitmapCodec::serialize_into(docids, &mut buffer);
        assert(buffer@ =~= cbo_bytes(bitmap_ids(*docids)));
        write_entry(entries, key, buffer);
        proof {
            assert(cached.take(i + 1).drop_last() =~= cached.take(i as int));
            assert(cached.take(i + 1).last() == cached[i as int]);
            assert(entry_views(entries@) =~= before + docids_entries(DocidsTable::Pairs, cached.take(i + 1)));
        }
        i += 1;
    }
    assert(cached.take(i as int) =~= cached);
}

/// Writes sets of document ids under words. Where the set is written, it can be read back.
pub fn write_word_docids(entries: &mut Vec<Entry>, words: &Vec<(CacheKey, RoaringBitmap)>)
    requires
        all_sound(DocidsTable::Words, words@),
    ensures
        entry_views(final(entries)@) == entry_views(old(entries)@) + docids_entries(
            DocidsTable::Words,
            cached_views(words@),
        ),
        all_read_back(DocidsTable::Words, cached_views(words@)),
{
    let ghost before = entry_views(entries@);
    let ghost cached = cached_views(words@);
    let mut i: usize = 0;
    assert(entry_views(entries@) =~= before + docids_entries(DocidsTable::Words, cached.take(0)));
    while i < words.len()
        invariant
            i <= words@.len(),
            all_sound(DocidsTable::Words, words@),
            cached == cached_views(words@),
            entry_views(entries@) == before + docids_entries(DocidsTable::Words, cached.take(i as int)),
            forall|j: int|
                0 <= j < i ==> reads_back(DocidsTable::Words, (#[trigger] cached[j]).1),
        decreases words@.len() - i,
    {
        let key = to_bytes(words[i].0[0].as_slice());
        let buffer = serialize_bitmap(&words[i].1);
        assert(key@ == key_parts(words@[i as int].0@)[0]);
        write_entry(entries, key, buffer);
        proof {
            assert(cached.take(i + 1).drop_last() =~= cached.take(i as int));
            assert(cached.take(i + 1).last() == cached[i as int]);
            assert(entry_views(entries@) =~= before + docids_entries(DocidsTable::Words, cached.take(i + 1)));
        }
        i += 1;
    }
    assert(cached.take(i as int) =~= cached);
}

/// Writes the positions of the words of a document. The words are in lexicographic order, so the
/// entries need no sorting.
pub fn write_docid_word_positions(entries: &mut Vec<Entry>, id: u32, words: &WordsPositions)
    requires
        words.wf(),
    ensures
        entry_views(final(entries)@) == entry_views(old(entries)@) + position_entries(id, words@),
{
    let ghost before = entry_views(entries@);
    let mut i: usize = 0;
    assert(entry_views(entries@) =~= before + position_entries(id, words@.take(0)));
    while i < words.len()
        invariant
            i <= words@.len(),
            entry_views(entries@) == before + position_entries(id, words@.take(i as int)),
        decreases words@.len() - i,
    {
        let word = words.get(i);
        // The words are prefixed by the document id.
        let mut key = to_be_bytes(id);
        key.extend_from_slice(word.word.as_slice());
        assert(key@ =~= be_bytes(id) + word@.0);
        let positions = bitmap_from_ids(&word.positions);
        let bytes = BoRoaringBitmapCodec::bytes_encode(&positions);
        write_entry(entries, key, bytes);
        proof {
            assert(words@.take(i + 1).drop_last() =~= words@.take(i as int));
            assert(words@.take(i + 1).last() == words@[i as int]);
            assert(entry_views(entries@) =~= before + position_entries(id, words@.take(i + 1)));
        }
        i += 1;
    }
    assert(words@.take(i as int) =~= words@);
}

/// Writes the ids of all documents, which can be read back.
pub fn write_documents_ids(entries: &mut Vec<Entry>, ids: &RoaringBitmap)
    requires
        bitmap_sound(*ids),
    ensures
        entry_views(final(entries)@) == entry_views(old(entries)@).push(
            (DOCUMENTS_IDS_KEY.spec_bytes(), roaring_bytes(bitmap_ids(*ids))),
        ),
        roaring_ids(roaring_bytes(bitmap_ids(*ids))) == Some(bitmap_ids(*ids)),
{
    let ghost before = entry_views(entries@);
    let buffer = serialize_bitmap(ids);
    let entry = Entry { key: main_key(DOCUMENTS_IDS_KEY), value: buffer };
    entries.push(entry);
    assert(entry_views(entries@) =~= before.push(entry@));
}

/// The keys of entries.
pub open spec fn keys_of(entries: Entries) -> Seq<Seq<u8>> {
    entries.map_values(|entry: (Seq<u8>, Seq<u8>)| entry.0)
}

/// Every key that is written is one that LMDB accepts.
pub proof fn lemma_written_keys_valid(
    table: DocidsTable,
    cached: Cached,
    id: u32,
    words: Seq<(Seq<u8>, Seq<u32>)>,
)
    ensures
        all_keys_valid(docids_entries(table, cached)),
        all_keys_valid(position_entries(id, words)),
    decreases cached.len() + words.len(),
{
    if cached.len() > 0 {
        lemma_written_keys_valid(table, cached.drop_last(), id, words);
    } else if words.len() > 0 {
        lemma_written_keys_valid(table, cached, id, words.drop_last());
    }
}

/// The positions of a word are read back from their entry.
pub proof fn lemma_positions_read_back(
    entry: (Seq<u8>, Seq<u32>),
    record: Seq<Seq<char>>,
    bound: int,
)
    requires
        is_word_up_to(entry, record, bound),
    ensures
        words_in(bo_bytes(entry.1.to_set())) == entry.1,
{
    lemma_bo_read_back(entry.1, entry.1.to_set());
}

/// Whether no byte is zero.
pub open spec fn no_zero(bytes: Seq<u8>) -> bool {
    forall|i: int| 0 <= i < bytes.len() ==> #[trigger] bytes[i] != 0
}

/// The key of a pair tells the pair, where the first word holds no zero byte.
pub proof fn lemma_pair_key_injective(a: Seq<Seq<u8>>, b: Seq<Seq<u8>>)
    requires
        a.len() == 3,
        b.len() == 3,
        a[2].len() == 1,
        b[2].len() == 1,
        no_zero(a[0]),
        no_zero(b[0]),
        pair_key(a) == pair_key(b),
    ensures
        a == b,
{
    let key = pair_key(a);
    let n = a[0].len() as int;
    let m = b[0].len() as int;
    assert(key[n] == 0);
    assert(pair_key(b)[m] == 0);
    if n < m {
        assert(pair_key(b)[n] == b[0][n]);
    } else if m < n {
        assert(key[m] == a[0][m]);
    }
    let last = key.len() - 1;
    assert(a[0] =~= key.take(n));
    assert(b[0] =~= pair_key(b).take(n));
    assert(a[1] =~= key.subrange(n + 1, last));
    assert(b[1] =~= pair_key(b).subrange(n + 1, last));
    assert(a[2] =~= key.skip(last));
    assert(b[2] =~= pair_key(b).skip(last));
    assert(a =~= b);
}

/// Writes the fst of all words.
pub fn write_words_fst(entries: &mut Vec<Entry>, words_fst: &WordsFst)
    ensures
        entry_views(final(entries)@) == entry_views(old(entries)@).push(
            (WORDS_FST_KEY.spec_bytes(), words_fst@),
        ),
{
    let ghost before = entry_views(entries@);
    let entry = Entry { key: main_key(WORDS_FST_KEY), value: to_bytes(words_fst.as_bytes()) };
    entries.push(entry);
    assert(entry_views(entries@) =~= before.push(entry@));
}

/// The view of entries has the key and the value of each, at its place.
pub proof fn lemma_entry_views(entries: Seq<Entry>, i: int)
    requires
        0 <= i < entries.len(),
    ensures
        entry_views(entries).len() == entries.len(),
        entry_views(entries)[i].0 == entries[i].key@,
        entry_views(entries)[i].1 == entries[i].value@,
{
}

} // verus!
