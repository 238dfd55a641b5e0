//! What is to be found in the tables, said of the fields of the records and the places of their
//! words.
use crate::bytes::{be_bytes, lemma_ascending_distinct};
use crate::codec::{bo_bytes, cbo_ids, words_in};
use crate::docids::{roaring_bytes, roaring_ids};
use crate::document::{lemma_document_says, value_under};
use crate::fields_ids_map::json_strings;
use crate::index_csv::{
    document_positions, document_row, document_rows, in_share, is_document_row, is_found,
    is_position_row, lemma_position_keys, lemma_rows, lemma_rows_are, lemma_rows_ascending,
    lists_share, position_rows, records_indexed, too_big, Share,
};
use crate::keys::valid_key;
use crate::merge_function::{
    cbo_merged, lemma_cbo_merged_says, lemma_roaring_merged_says, roaring_merged,
};
use crate::proximity::{
    close_pairs, lemma_pair_once, lemma_pair_positions, lemma_pair_stands, stands_at,
};
use crate::store::{
    docids_of, fields_written, finished, has_docid, has_pair, pair_parts, StoreView, TablesView,
};
use crate::tables::{
    entries_listing, is_listed, keys_of, lemma_positions_read_back, position_entries, table_key,
    DocidsTable, Entries,
};
use crate::words_positions::{
    are_words_of, has_place, has_word, is_word_up_to, lemma_place_listed, lemma_position_place,
    lemma_words_exist, lemma_words_say, lower_word, record_words, MAX_ATTRIBUTES, MAX_POSITION,
};
use vstd::prelude::*;
use vstd::string::StringSliceAdditionalSpecFns;
use vstd::utf8::encode_utf8;

verus! {

/// Whether a value in the roaring form under a word holds a document.
pub open spec fn under_word(entries: Entries, word: Seq<u8>, id: u32) -> bool {
    exists|e: int|
        {
            &&& 0 <= e < entries.len()
            &&& (#[trigger] entries[e]).0 == word
            &&& roaring_ids(entries[e].1) is Some
            &&& roaring_ids(entries[e].1)->0.contains(id)
        }
}

/// Whether a value in the conditional form under a key holds a document.
pub open spec fn under_pair(entries: Entries, key: Seq<u8>, id: u32) -> bool {
    exists|e: int|
        {
            &&& 0 <= e < entries.len()
            &&& (#[trigger] entries[e]).0 == key
            &&& cbo_ids(entries[e].1) is Some
            &&& cbo_ids(entries[e].1)->0.contains(id)
        }
}

/// Whether a store holds no document yet.
pub open spec fn is_fresh(s: StoreView) -> bool {
    &&& s.word_docids.len() == 0
    &&& s.words_pairs_proximities_docids.len() == 0
    &&& s.documents_ids == Set::<u32>::empty()
    &&& s.tables.main.len() == 0
    &&& s.tables.word_docids.len() == 0
    &&& s.tables.docid_word_positions.len() == 0
    &&& s.tables.words_pairs_proximities_docids.len() == 0
    &&& s.tables.documents.len() == 0
}

/// Whether the thread of a share indexes the record at a place: the remainder of the id by the
/// number of threads is the index of the thread.
pub open spec fn falls_to(share: Share, i: int) -> bool {
    (share.base + i) % share.num_threads == share.thread_index
}

/// What is listed under a word is in an entry under the word.
proof fn lemma_listed_words(entries: Entries, word: Seq<u8>, id: u32)
    ensures
        is_listed(entries_listing(DocidsTable::Words, entries), word, id) <==> under_word(
            entries,
            word,
            id,
        ),
{
    let listing = entries_listing(DocidsTable::Words, entries);
    if is_listed(listing, word, id) {
        let e = choose|e: int|
            0 <= e < listing.len() && (#[trigger] listing[e]).0 == word && listing[e].1 is Some
                && listing[e].1->0.contains(id);
        assert(entries[e].0 == word);
    }
    if under_word(entries, word, id) {
        let e = choose|e: int|
            {
                &&& 0 <= e < entries.len()
                &&& (#[trigger] entries[e]).0 == word
                &&& roaring_ids(entries[e].1) is Some
                &&& roaring_ids(entries[e].1)->0.contains(id)
            };
        assert(listing[e] == (word, roaring_ids(entries[e].1)));
    }
}

/// What is listed under the key of a pair is in an entry under the key.
proof fn lemma_listed_pairs(entries: Entries, key: Seq<u8>, id: u32)
    ensures
        is_listed(entries_listing(DocidsTable::Pairs, entries), key, id) <==> under_pair(
            entries,
            key,
            id,
        ),
{
    let listing = entries_listing(DocidsTable::Pairs, entries);
    if is_listed(listing, key, id) {
        let e = choose|e: int|
            0 <= e < listing.len() && (#[trigger] listing[e]).0 == key && listing[e].1 is Some
                && listing[e].1->0.contains(id);
        assert(entries[e].0 == key);
    }
    if under_pair(entries, key, id) {
        let e = choose|e: int|
            {
                &&& 0 <= e < entries.len()
                &&& (#[trigger] entries[e]).0 == key
                &&& cbo_ids(entries[e].1) is Some
                &&& cbo_ids(entries[e].1)->0.contains(id)
            };
        assert(listing[e] == (key, cbo_ids(entries[e].1)));
    }
}

/// Each document is found under each of its words, in lowercase, whichever field and place it is
/// in, unless the word is longer than 511 bytes.
pub proof fn lemma_word_found(
    tables: TablesView,
    s: StoreView,
    records: Seq<Seq<Seq<char>>>,
    share: Share,
    i: int,
    attr: int,
    pos: int,
)
    requires
        lists_share(tables, s, records, share),
        0 <= i < records.len(),
        0 <= share.base + i <= u32::MAX,
        falls_to(share, i),
        has_place(records[i], attr, pos),
        1 <= lower_word(records[i], attr, pos).len() <= 511,
    ensures
        under_word(
            tables.word_docids,
            lower_word(records[i], attr, pos),
            (share.base + i) as u32,
        ),
{
    let word = lower_word(records[i], attr, pos);
    let id = (share.base + i) as u32;
    let words = record_words(records[i]);
    lemma_words_exist(records[i]);
    lemma_words_say(words, records[i]);
    assert(has_place(records[i], attr, pos));
    assert(has_word(words, word));
    assert(is_found(s, DocidsTable::Words, records, share, word, id));
    let listing = entries_listing(DocidsTable::Words, docids_of(tables, DocidsTable::Words));
    assert(is_listed(listing, word, id));
    lemma_listed_words(tables.word_docids, word, id);
}

/// Whether a record has a word at some place of some field.
pub open spec fn names_word(record: Seq<Seq<char>>, word: Seq<u8>) -> bool {
    exists|attr: int, pos: int| #[trigger]
        has_place(record, attr, pos) && word == lower_word(record, attr, pos)
}

/// A document is found under no word but those that it has at some place, and only where its
/// record falls to the thread.
pub proof fn lemma_word_found_only(
    tables: TablesView,
    s: StoreView,
    records: Seq<Seq<Seq<char>>>,
    share: Share,
    word: Seq<u8>,
    id: u32,
)
    requires
        lists_share(tables, s, records, share),
        is_fresh(s),
        1 <= word.len() <= 511,
        under_word(tables.word_docids, word, id),
    ensures
        share.base <= id < share.base + records.len(),
        falls_to(share, id - share.base),
        names_word(records[id - share.base], word),
{
    let table = DocidsTable::Words;
    lemma_listed_words(tables.word_docids, word, id);
    let listing = entries_listing(table, docids_of(tables, table));
    assert(is_listed(listing, word, id));
    assert(is_found(s, table, records, share, word, id));
    assert(!has_docid(s, table, word, id));
    let record = records[id - share.base];
    let words = record_words(record);
    lemma_words_exist(record);
    lemma_words_say(words, record);
    let k = choose|k: int| 0 <= k < words.len() && (#[trigger] words[k]).0 == word;
    let p = words[k].1[0] as int;
    assert(has_place(record, p / 1000, p % 1000));
}

/// Whether a document is found under the key of two words at a proximity of at most `most`.
pub open spec fn pair_within(
    tables: TablesView,
    first: Seq<u8>,
    second: Seq<u8>,
    most: int,
    id: u32,
) -> bool {
    exists|prox: u8|
        1 <= prox <= most && #[trigger] under_pair(
            tables.words_pairs_proximities_docids,
            first + seq![0u8] + second + seq![prox],
            id,
        )
}

/// Words that stand in a field at a proximity have a pair that is listed at it or a shorter one.
proof fn lemma_pair_of_places(record: Seq<Seq<char>>, attr: int, p: int, q: int, prox: int) -> (k:
    int)
    requires
        has_place(record, attr, p),
        has_place(record, attr, q),
        1 <= prox <= 7,
        q - p == prox || p - q == prox - 1 && q < p,
    ensures
        0 <= k < close_pairs(record_words(record)).len(),
        close_pairs(record_words(record))[k].0 == lower_word(record, attr, p),
        close_pairs(record_words(record))[k].1 == lower_word(record, attr, q),
        1 <= close_pairs(record_words(record))[k].2 <= prox,
{
    let words = record_words(record);
    lemma_words_exist(record);
    let i = lemma_place_listed(words, record, attr, p);
    let j = lemma_place_listed(words, record, attr, q);
    let a = (1000 * attr + p) as u32;
    let b = (1000 * attr + q) as u32;
    assert(a == 1000 * attr + p);
    assert(b == 1000 * attr + q);
    assert(stands_at(a, b, prox));
    lemma_pair_stands(words, i, j, a, b, prox)
}

/// Each document in which a word follows another in a field at a distance of 1 to 7 is found under
/// the two words at a proximity of at most the distance, and under them the other way round, where
/// the distance is at most 6, at a proximity of at most one more. This is so unless the key is
/// longer than 511 bytes.
pub proof fn lemma_pair_found(
    tables: TablesView,
    s: StoreView,
    records: Seq<Seq<Seq<char>>>,
    share: Share,
    i: int,
    attr: int,
    pos: int,
    distance: int,
)
    requires
        lists_share(tables, s, records, share),
        0 <= i < records.len(),
        0 <= share.base + i <= u32::MAX,
        falls_to(share, i),
        1 <= distance <= 7,
        has_place(records[i], attr, pos),
        has_place(records[i], attr, pos + distance),
        lower_word(records[i], attr, pos).len() + lower_word(
            records[i],
            attr,
            pos + distance,
        ).len() + 2 <= 511,
    ensures
        pair_within(
            tables,
            lower_word(records[i], attr, pos),
            lower_word(records[i], attr, pos + distance),
            distance,
            (share.base + i) as u32,
        ),
        distance <= 6 ==> pair_within(
            tables,
            lower_word(records[i], attr, pos + distance),
            lower_word(records[i], attr, pos),
            distance + 1,
            (share.base + i) as u32,
        ),
{
    let record = records[i];
    let near = lower_word(record, attr, pos);
    let far = lower_word(record, attr, pos + distance);
    let k = lemma_pair_of_places(record, attr, pos, pos + distance, distance);
    lemma_pair_listed(tables, s, records, share, i, k);
    let prox = close_pairs(record_words(record))[k].2;
    assert(under_pair(
        tables.words_pairs_proximities_docids,
        near + seq![0u8] + far + seq![prox],
        (share.base + i) as u32,
    ));
    if distance <= 6 {
        let k = lemma_pair_of_places(record, attr, pos + distance, pos, distance + 1);
        lemma_pair_listed(tables, s, records, share, i, k);
        let prox = close_pairs(record_words(record))[k].2;
        assert(under_pair(
            tables.words_pairs_proximities_docids,
            far + seq![0u8] + near + seq![prox],
            (share.base + i) as u32,
        ));
    }
}

/// A document is found under each of its pairs.
proof fn lemma_pair_listed(
    tables: TablesView,
    s: StoreView,
    records: Seq<Seq<Seq<char>>>,
    share: Share,
    i: int,
    k: int,
)
    requires
        lists_share(tables, s, records, share),
        0 <= i < records.len(),
        0 <= share.base + i <= u32::MAX,
        falls_to(share, i),
        0 <= k < close_pairs(record_words(records[i])).len(),
        close_pairs(record_words(records[i]))[k].0.len() + close_pairs(
            record_words(records[i]),
        )[k].1.len() + 2 <= 511,
    ensures
        ({
            let pair = close_pairs(record_words(records[i]))[k];
            under_pair(
                tables.words_pairs_proximities_docids,
                pair.0 + seq![0u8] + pair.1 + seq![pair.2],
                (share.base + i) as u32,
            )
        }),
{
    let table = DocidsTable::Pairs;
    let pairs = close_pairs(record_words(records[i]));
    let pair = pairs[k];
    let key = pair.0 + seq![0u8] + pair.1 + seq![pair.2];
    let id = (share.base + i) as u32;
    assert(table_key(table, pair_parts(pairs[k])) == key);
    assert(has_pair(pairs, key));
    assert(is_found(s, table, records, share, key, id));
    let listing = entries_listing(table, docids_of(tables, table));
    assert(is_listed(listing, key, id));
    lemma_listed_pairs(tables.words_pairs_proximities_docids, key, id);
}

/// Whether a key is that of two words which stand in one field of a record at its proximity,
/// between 1 and 7, and nowhere at a shorter one.
pub open spec fn is_pair_of_places(
    record: Seq<Seq<char>>,
    key: Seq<u8>,
    attr: int,
    p: int,
    q: int,
    prox: u8,
) -> bool {
    &&& has_place(record, attr, p)
    &&& has_place(record, attr, q)
    &&& 1 <= prox <= 7
    &&& q - p == prox || p - q == prox - 1 && q < p
    &&& key == lower_word(record, attr, p) + seq![0u8] + lower_word(record, attr, q) + seq![prox]
    &&& forall|other: int, m: int, n: int|
        #![trigger lower_word(record, other, m), lower_word(record, other, n)]
        {
            &&& has_place(record, other, m)
            &&& has_place(record, other, n)
            &&& lower_word(record, other, m) == lower_word(record, attr, p)
            &&& lower_word(record, other, n) == lower_word(record, attr, q)
        } ==> (n > m ==> n - m >= prox) && (m > n ==> m - n + 1 >= prox)
}

/// Whether a key is that of two words which stand close to each other in some field of a record.
pub open spec fn names_pair(record: Seq<Seq<char>>, key: Seq<u8>) -> bool {
    exists|attr: int, p: int, q: int, prox: u8| is_pair_of_places(record, key, attr, p, q, prox)
}

/// A document is found under no pair but those of words that stand close to each other in one of
/// its fields, with their shortest proximity, and only where its record falls to the thread.
pub proof fn lemma_pair_found_only(
    tables: TablesView,
    s: StoreView,
    records: Seq<Seq<Seq<char>>>,
    share: Share,
    key: Seq<u8>,
    id: u32,
)
    requires
        lists_share(tables, s, records, share),
        is_fresh(s),
        1 <= key.len() <= 511,
        under_pair(tables.words_pairs_proximities_docids, key, id),
    ensures
        share.base <= id < share.base + records.len(),
        falls_to(share, id - share.base),
        names_pair(records[id - share.base], key),
{
    let table = DocidsTable::Pairs;
    lemma_listed_pairs(tables.words_pairs_proximities_docids, key, id);
    let listing = entries_listing(table, docids_of(tables, table));
    assert(is_listed(listing, key, id));
    assert(is_found(s, table, records, share, key, id));
    assert(!has_docid(s, table, key, id));
    let record = records[id - share.base];
    let words = record_words(record);
    let pairs = close_pairs(words);
    lemma_words_exist(record);
    assert(has_pair(pairs, key));
    let k = choose|k: int|
        0 <= k < pairs.len() && table_key(table, pair_parts(#[trigger] pairs[k])) == key;
    let pair = pairs[k];
    let (i, j, a, b) = lemma_pair_positions(words, k);
    lemma_position_place(words, record, i, a);
    lemma_position_place(words, record, j, b);
    let attr = a as int / 1000;
    let p = a as int % 1000;
    let q = b as int % 1000;
    assert forall|other: int, m: int, n: int|
        #![trigger lower_word(record, other, m), lower_word(record, other, n)]
        {
            &&& has_place(record, other, m)
            &&& has_place(record, other, n)
            &&& lower_word(record, other, m) == lower_word(record, attr, p)
            &&& lower_word(record, other, n) == lower_word(record, attr, q)
        } implies (n > m ==> n - m >= pair.2) && (m > n ==> m - n + 1 >= pair.2) by {
        let distance = if n > m {
            n - m
        } else {
            m - n + 1
        };
        if n != m && distance <= 7 {
            let l = lemma_pair_of_places(record, other, m, n, distance);
            lemma_pair_once(words, l, k);
        }
    }
    assert(is_pair_of_places(record, key, attr, p, q, pair.2));
}

/// Whether a value lists the positions of the places at which a record has a word, all of them, in
/// order, and no others.
pub open spec fn lists_places(value: Seq<u8>, record: Seq<Seq<char>>, word: Seq<u8>) -> bool {
    &&& forall|position: u32| #[trigger]
        words_in(value).contains(position) <==> {
            &&& has_place(record, position as int / 1000, position as int % 1000)
            &&& lower_word(record, position as int / 1000, position as int % 1000) == word
        }
    &&& forall|k: int, l: int|
        0 <= k < l < words_in(value).len() ==> words_in(value)[k] < words_in(value)[l]
}

/// Whether an entry is that of the positions of a word of a document.
pub open spec fn is_positions_entry(
    entry: (Seq<u8>, Seq<u8>),
    id: u32,
    record: Seq<Seq<char>>,
    word: Seq<u8>,
) -> bool {
    &&& entry.0 == be_bytes(id) + word
    &&& lists_places(entry.1, record, word)
    &&& names_word(record, word)
}

/// Whether an entry is that of the positions of some word of a document.
pub open spec fn is_some_positions_entry(
    entry: (Seq<u8>, Seq<u8>),
    id: u32,
    record: Seq<Seq<char>>,
) -> bool {
    exists|word: Seq<u8>| is_positions_entry(entry, id, record, word)
}

/// The positions of a word of a record are those that its entry lists.
proof fn lemma_lists_places(words: Seq<(Seq<u8>, Seq<u32>)>, record: Seq<Seq<char>>, j: int)
    requires
        are_words_of(words, record),
        0 <= j < words.len(),
    ensures
        lists_places(bo_bytes(words[j].1.to_set()), record, words[j].0),
        names_word(record, words[j].0),
{
    let value = bo_bytes(words[j].1.to_set());
    let bound = MAX_ATTRIBUTES * MAX_POSITION;
    lemma_words_say(words, record);
    assert(is_word_up_to(words[j], record, bound));
    lemma_positions_read_back(words[j], record, bound);
    assert(words_in(value) == words[j].1);
    assert forall|position: u32| #[trigger] words_in(value).contains(position) <==> {
        &&& has_place(record, position as int / 1000, position as int % 1000)
        &&& lower_word(record, position as int / 1000, position as int % 1000) == words[j].0
    } by {
        let attr = position as int / 1000;
        let pos = position as int % 1000;
        if words[j].1.contains(position) {
            let k = choose|k: int| 0 <= k < words[j].1.len() && words[j].1[k] == position;
            let p = words[j].1[k] as int;
            assert(has_place(record, p / 1000, p % 1000));
        }
        if has_place(record, attr, pos) && lower_word(record, attr, pos) == words[j].0 {
            let i = choose|i: int|
                #![trigger words[i]]
                {
                    &&& 0 <= i < words.len()
                    &&& words[i].0 == lower_word(record, attr, pos)
                    &&& words[i].1.contains((1000 * attr + pos) as u32)
                };
            if i < j {
                assert(words[i].0 != words[j].0);
            } else if j < i {
                assert(words[j].0 != words[i].0);
            }
        }
    }
    let p = words[j].1[0] as int;
    assert(has_place(record, p / 1000, p % 1000));
}

/// The entries of the positions are those of the words with keys that LMDB accepts.
proof fn lemma_positions_of_words(id: u32, words: Seq<(Seq<u8>, Seq<u32>)>, j: int, e: int)
    ensures
        0 <= j < words.len() && 4 + words[j].0.len() <= 511 ==> position_entries(
            id,
            words,
        ).contains((be_bytes(id) + words[j].0, bo_bytes(words[j].1.to_set()))),
        0 <= e < position_entries(id, words).len() ==> exists|n: int|
            0 <= n < words.len() && position_entries(id, words)[e] == (
                be_bytes(id) + (#[trigger] words[n]).0,
                bo_bytes(words[n].1.to_set()),
            ),
    decreases words.len(),
{
    let entries = position_entries(id, words);
    if words.len() > 0 {
        let rest = words.drop_last();
        let before = position_entries(id, rest);
        let last = words.len() - 1;
        lemma_positions_of_words(id, rest, j, e);
        if 0 <= j < words.len() && 4 + words[j].0.len() <= 511 {
            let row = (be_bytes(id) + words[j].0, bo_bytes(words[j].1.to_set()));
            if j < last {
                assert(rest[j] == words[j]);
                let k = choose|k: int| 0 <= k < before.len() && before[k] == row;
                assert(entries[k] == row);
            } else {
                assert(valid_key(row.0));
                assert(entries[before.len() as int] == row);
            }
        }
        if 0 <= e < entries.len() {
            if e < before.len() {
                let n = choose|n: int|
                    0 <= n < rest.len() && before[e] == (
                        be_bytes(id) + (#[trigger] rest[n]).0,
                        bo_bytes(rest[n].1.to_set()),
                    );
                assert(words[n] == rest[n]);
            } else {
                assert(entries[e] == (
                    be_bytes(id) + words[last].0,
                    bo_bytes(words[last].1.to_set()),
                ));
            }
        }
    }
}

/// What the entries of the positions of a document say: under the id of the document and each of
/// its words there is one entry, which lists all positions of the word and no others, unless the
/// key is longer than 511 bytes, and there are no other entries.
pub proof fn lemma_positions_say(id: u32, record: Seq<Seq<char>>)
    ensures
        keys_of(position_entries(id, record_words(record))).no_duplicates(),
        forall|attr: int, pos: int| #[trigger]
            has_place(record, attr, pos) && 4 + lower_word(record, attr, pos).len() <= 511
                ==> has_positions(
                position_entries(id, record_words(record)),
                id,
                record,
                lower_word(record, attr, pos),
            ),
        forall|e: int|
            0 <= e < position_entries(id, record_words(record)).len() ==> is_some_positions_entry(
                #[trigger] position_entries(id, record_words(record))[e],
                id,
                record,
            ),
{
    let words = record_words(record);
    let entries = position_entries(id, words);
    lemma_words_exist(record);
    lemma_words_say(words, record);
    lemma_position_keys(id, words);
    lemma_ascending_distinct(keys_of(entries));
    assert forall|attr: int, pos: int| #[trigger]
        has_place(record, attr, pos) && 4 + lower_word(record, attr, pos).len()
            <= 511 implies has_positions(entries, id, record, lower_word(record, attr, pos)) by {
        let j = choose|j: int|
            #![trigger words[j]]
            {
                &&& 0 <= j < words.len()
                &&& words[j].0 == lower_word(record, attr, pos)
                &&& words[j].1.contains((1000 * attr + pos) as u32)
            };
        let row = (be_bytes(id) + words[j].0, bo_bytes(words[j].1.to_set()));
        lemma_positions_of_words(id, words, j, 0);
        lemma_lists_places(words, record, j);
        let e = choose|e: int| 0 <= e < entries.len() && entries[e] == row;
        assert(is_positions_entry(entries[e], id, record, words[j].0));
    }
    assert forall|e: int| 0 <= e < entries.len() implies is_some_positions_entry(
        #[trigger] entries[e],
        id,
        record,
    ) by {
        lemma_positions_of_words(id, words, 0, e);
        let n = choose|n: int|
            0 <= n < words.len() && entries[e] == (
                be_bytes(id) + (#[trigger] words[n]).0,
                bo_bytes(words[n].1.to_set()),
            );
        lemma_lists_places(words, record, n);
        assert(is_positions_entry(entries[e], id, record, words[n].0));
    }
}

/// Whether an entry lists the positions of a word of a document.
pub open spec fn has_positions(
    entries: Entries,
    id: u32,
    record: Seq<Seq<char>>,
    word: Seq<u8>,
) -> bool {
    exists|e: int|
        0 <= e < entries.len() && is_positions_entry(#[trigger] entries[e], id, record, word)
}

/// Whether an entry is that of a stored record: under the id, each field under its place.
pub open spec fn is_stored(entry: (Seq<u8>, Seq<u8>), id: u32, record: Seq<Seq<char>>) -> bool {
    &&& entry.0 == be_bytes(id)
    &&& forall|key: u8| #[trigger]
        value_under(entry.1, key) == if key < record.len() {
            Some(encode_utf8(record[key as int]))
        } else {
            None
        }
}

/// Whether an entry is that of a stored record of a share.
pub open spec fn is_stored_in(
    entry: (Seq<u8>, Seq<u8>),
    records: Seq<Seq<Seq<char>>>,
    share: Share,
) -> bool {
    exists|i: int| #[trigger]
        falls_to(share, i) && 0 <= i < records.len() && is_stored(
            entry,
            (share.base + i) as u32,
            records[i],
        )
}

/// Whether an entry lists positions of a word of a record of a share.
pub open spec fn is_positions_in(
    entry: (Seq<u8>, Seq<u8>),
    records: Seq<Seq<Seq<char>>>,
    share: Share,
) -> bool {
    exists|i: int| #[trigger]
        falls_to(share, i) && 0 <= i < records.len() && is_some_positions_entry(
            entry,
            (share.base + i) as u32,
            records[i],
        )
}

/// Each record that falls to the thread is stored, once, under its id, with its word positions, and
/// nothing else is: neither another record, nor a position that is not one of its words.
pub proof fn lemma_records_stored(
    s: StoreView,
    names: Seq<Seq<char>>,
    records: Seq<Seq<Seq<char>>>,
    share: Share,
)
    requires
        is_fresh(s),
        share.base >= 0,
        forall|i: int|
            0 <= i < records.len() && #[trigger] falls_to(share, i) ==> share.base + i <= u32::MAX
                && records[i].len() <= 256,
    ensures
        ({
            let tables = finished(records_indexed(fields_written(s, names), records, share));
            &&& keys_of(tables.documents).no_duplicates()
            &&& keys_of(tables.docid_word_positions).no_duplicates()
            &&& forall|i: int|
                0 <= i < records.len() && #[trigger] falls_to(share, i) ==> {
                    &&& exists|e: int|
                        0 <= e < tables.documents.len() && is_stored(
                            #[trigger] tables.documents[e],
                            (share.base + i) as u32,
                            records[i],
                        )
                    &&& forall|attr: int, pos: int| #[trigger]
                        has_place(records[i], attr, pos) && 4 + lower_word(
                            records[i],
                            attr,
                            pos,
                        ).len() <= 511 ==> has_positions(
                            tables.docid_word_positions,
                            (share.base + i) as u32,
                            records[i],
                            lower_word(records[i], attr, pos),
                        )
                }
            &&& forall|e: int|
                0 <= e < tables.documents.len() ==> is_stored_in(
                    #[trigger] tables.documents[e],
                    records,
                    share,
                )
            &&& forall|e: int|
                0 <= e < tables.docid_word_positions.len() ==> is_positions_in(
                    #[trigger] tables.docid_word_positions[e],
                    records,
                    share,
                )
        }),
{
    let p = fields_written(s, names);
    let tables = finished(records_indexed(p, records, share));
    let base = share.base;
    lemma_rows(p, records, share);
    assert forall|i: int| 0 <= i < records.len() implies !#[trigger] too_big(
        share,
        i,
    ) by {
        assert(falls_to(share, i) == in_share(share, i));
    }
    lemma_rows_ascending(records, share);
    assert(tables.documents =~= document_rows(records, share));
    assert(tables.docid_word_positions =~= position_rows(records, share));
    assert forall|i: int| 0 <= i < records.len() && #[trigger] falls_to(share, i) implies {
        &&& exists|e: int|
            0 <= e < tables.documents.len() && is_stored(
                #[trigger] tables.documents[e],
                (share.base + i) as u32,
                records[i],
            )
        &&& forall|attr: int, pos: int| #[trigger]
            has_place(records[i], attr, pos) && 4 + lower_word(records[i], attr, pos).len() <= 511
                ==> has_positions(
                tables.docid_word_positions,
                (share.base + i) as u32,
                records[i],
                lower_word(records[i], attr, pos),
            )
    } by {
        let id = (base + i) as u32;
        let record = records[i];
        assert(in_share(share, i));
        let row = document_row(records, base, i);
        lemma_rows_are(records, share, row);
        assert(is_document_row(records, share, row));
        let e = choose|e: int| 0 <= e < tables.documents.len() && tables.documents[e] == row;
        assert forall|key: u8| #[trigger] value_under(row.1, key) == if key < record.len() {
            Some(encode_utf8(record[key as int]))
        } else {
            None
        } by {
            lemma_document_says(record, key);
        }
        assert(is_stored(tables.documents[e], id, record));
        lemma_positions_say(id, record);
        let entries = document_positions(records, base, i);
        assert forall|attr: int, pos: int| #[trigger]
            has_place(record, attr, pos) && 4 + lower_word(record, attr, pos).len()
                <= 511 implies has_positions(
            tables.docid_word_positions,
            id,
            record,
            lower_word(record, attr, pos),
        ) by {
            let word = lower_word(record, attr, pos);
            assert(has_positions(entries, id, record, word));
            let n = choose|n: int|
                0 <= n < entries.len() && is_positions_entry(
                    #[trigger] entries[n],
                    id,
                    record,
                    word,
                );
            let row = entries[n];
            assert(entries.contains(row));
            assert(is_position_row(records, share, row));
            lemma_rows_are(records, share, row);
            let e = choose|e: int|
                0 <= e < tables.docid_word_positions.len() && tables.docid_word_positions[e] == row;
            assert(is_positions_entry(tables.docid_word_positions[e], id, record, word));
        }
    }
    assert forall|e: int| 0 <= e < tables.documents.len() implies is_stored_in(
        #[trigger] tables.documents[e],
        records,
        share,
    ) by {
        let row = tables.documents[e];
        assert(document_rows(records, share).contains(row));
        lemma_rows_are(records, share, row);
        let i = choose|i: int|
            0 <= i < records.len() && in_share(share, i) && row == #[trigger] document_row(
                records,
                base,
                i,
            );
        let record = records[i];
        assert(falls_to(share, i));
        assert forall|key: u8| #[trigger] value_under(row.1, key) == if key < record.len() {
            Some(encode_utf8(record[key as int]))
        } else {
            None
        } by {
            lemma_document_says(record, key);
        }
        assert(is_stored(row, (base + i) as u32, record));
    }
    assert forall|e: int| 0 <= e < tables.docid_word_positions.len() implies is_positions_in(
        #[trigger] tables.docid_word_positions[e],
        records,
        share,
    ) by {
        let row = tables.docid_word_positions[e];
        assert(position_rows(records, share).contains(row));
        lemma_rows_are(records, share, row);
        let i = choose|i: int|
            0 <= i < records.len() && in_share(share, i) && (#[trigger] document_positions(
                records,
                base,
                i,
            )).contains(row);
        let id = (base + i) as u32;
        let entries = document_positions(records, base, i);
        let n = choose|n: int| 0 <= n < entries.len() && entries[n] == row;
        lemma_positions_say(id, records[i]);
        assert(is_some_positions_entry(entries[n], id, records[i]));
        assert(falls_to(share, i));
    }
}

/// The main table has two entries before the words come to it: the names of the fields, and the
/// ids of the records that fall to the thread, all of them and no others.
pub proof fn lemma_main_entries(
    s: StoreView,
    names: Seq<Seq<char>>,
    records: Seq<Seq<Seq<char>>>,
    share: Share,
    ids: Set<u32>,
)
    requires
        is_fresh(s),
        share.base >= 0,
        forall|i: int|
            0 <= i < records.len() && #[trigger] falls_to(share, i) ==> share.base + i <= u32::MAX,
        forall|id: u32| #[trigger]
            ids.contains(id) <==> share.base <= id < share.base + records.len() && falls_to(
                share,
                id - share.base,
            ),
    ensures
        ({
            let tables = finished(records_indexed(fields_written(s, names), records, share));
            &&& tables.main.len() == 2
            &&& tables.main[0] == ("fields-ids-map".spec_bytes(), json_strings(names))
            &&& tables.main[1] == ("documents-ids".spec_bytes(), roaring_bytes(ids))
        }),
{
    let p = fields_written(s, names);
    let all = records_indexed(p, records, share).documents_ids;
    lemma_rows(p, records, share);
    assert forall|i: int| 0 <= i < records.len() implies !#[trigger] too_big(
        share,
        i,
    ) by {
        assert(falls_to(share, i) == in_share(share, i));
    }
    assert forall|id: u32| all.contains(id) <==> ids.contains(id) by {
        assert(falls_to(share, id - share.base) == in_share(share, id - share.base));
    }
    assert(all =~= ids);
}

/// Whether values are those that entries have under a key, in any order and however often.
pub open spec fn are_values_under(values: Seq<Seq<u8>>, entries: Entries, key: Seq<u8>) -> bool {
    forall|value: Seq<u8>| #[trigger] values.contains(value) <==> entries.contains((key, value))
}

/// However a sorter collects the values under a word, merging them gives the documents that are in
/// an entry under the word.
pub proof fn lemma_merged_word(
    entries: Entries,
    word: Seq<u8>,
    values: Seq<Seq<u8>>,
    merged: Vec<u8>,
    id: u32,
)
    requires
        are_values_under(values, entries, word),
        roaring_merged(values, Ok(merged)),
    ensures
        roaring_ids(merged@) is Some,
        roaring_ids(merged@)->0.contains(id) <==> under_word(entries, word, id),
{
    lemma_roaring_merged_says(values, Ok(merged), id);
    if roaring_ids(merged@)->0.contains(id) {
        let i = choose|i: int|
            0 <= i < values.len() && roaring_ids(#[trigger] values[i])->0.contains(id);
        assert(values.contains(values[i]));
        let e = choose|e: int| 0 <= e < entries.len() && entries[e] == (word, values[i]);
        assert(entries[e].0 == word);
    }
    if under_word(entries, word, id) {
        let e = choose|e: int|
            {
                &&& 0 <= e < entries.len()
                &&& (#[trigger] entries[e]).0 == word
                &&& roaring_ids(entries[e].1) is Some
                &&& roaring_ids(entries[e].1)->0.contains(id)
            };
        assert(entries.contains((word, entries[e].1)));
        assert(values.contains(entries[e].1));
        let i = choose|i: int| 0 <= i < values.len() && values[i] == entries[e].1;
        assert(roaring_ids(values[i])->0.contains(id));
    }
}

/// However a sorter collects the values under a pair of words, merging them gives the documents that
/// are in an entry under the pair.
pub proof fn lemma_merged_pair(
    entries: Entries,
    key: Seq<u8>,
    values: Seq<Seq<u8>>,
    merged: Vec<u8>,
    id: u32,
)
    requires
        are_values_under(values, entries, key),
        cbo_merged(values, Ok(merged)),
    ensures
        cbo_ids(merged@) is Some,
        cbo_ids(merged@)->0.contains(id) <==> under_pair(entries, key, id),
{
    lemma_cbo_merged_says(values, Ok(merged), id);
    if cbo_ids(merged@)->0.contains(id) {
        let i = choose|i: int|
            0 <= i < values.len() && cbo_ids(#[trigger] values[i])->0.contains(id);
        assert(values.contains(values[i]));
        let e = choose|e: int| 0 <= e < entries.len() && entries[e] == (key, values[i]);
        assert(entries[e].0 == key);
    }
    if under_pair(entries, key, id) {
        let e = choose|e: int|
            {
                &&& 0 <= e < entries.len()
                &&& (#[trigger] entries[e]).0 == key
                &&& cbo_ids(entries[e].1) is Some
                &&& cbo_ids(entries[e].1)->0.contains(id)
            };
        assert(entries.contains((key, entries[e].1)));
        assert(values.contains(entries[e].1));
        let i = choose|i: int| 0 <= i < values.len() && values[i] == entries[e].1;
        assert(cbo_ids(values[i])->0.contains(id));
    }
}

} // verus!
