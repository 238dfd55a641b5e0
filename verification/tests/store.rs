use grenad::CompressionType;
use indexing::codec::CboRoaringBitmapCodec;
use indexing::fields_ids_map::fields_of;
use indexing::index_csv::{Cursor, IndexError, Step, Turn};
use indexing::merge_function::{word_docids_merge, words_pairs_proximities_docids_merge};
use indexing::store::{Store, Tables};
use indexing::tables::{write_words_fst, Entry};
use indexing::words_fst::WordsFstBuilder;
use roaring::RoaringBitmap;
use std::borrow::Cow;
use std::collections::BTreeMap;
use std::collections::BTreeSet;

fn store(size: usize) -> Store {
    Store::new(size, None, None, CompressionType::None, None, None)
}

fn record(fields: &[&str]) -> Vec<String> {
    fields.iter().map(|field| field.to_string()).collect()
}

fn keys(entries: &[Entry]) -> Vec<Vec<u8>> {
    entries.iter().map(|entry| entry.key.clone()).collect()
}

fn roaring(bytes: &[u8]) -> Vec<u32> {
    RoaringBitmap::deserialize_from(bytes).unwrap().iter().collect()
}

fn words_docids(tables: &Tables) -> BTreeMap<Vec<u8>, BTreeSet<u32>> {
    let mut docids: BTreeMap<Vec<u8>, BTreeSet<u32>> = BTreeMap::new();
    for entry in &tables.word_docids {
        docids.entry(entry.key.clone()).or_default().extend(roaring(&entry.value));
    }
    docids
}

fn pairs_docids(tables: &Tables) -> BTreeMap<Vec<u8>, BTreeSet<u32>> {
    let mut docids: BTreeMap<Vec<u8>, BTreeSet<u32>> = BTreeMap::new();
    for entry in &tables.words_pairs_proximities_docids {
        let ids = CboRoaringBitmapCodec::deserialize_from(&entry.value).unwrap();
        docids.entry(entry.key.clone()).or_default().extend(ids.iter());
    }
    docids
}

fn set(ids: &[u32]) -> BTreeSet<u32> {
    ids.iter().cloned().collect()
}

#[test]
fn memory_is_divided_among_three_sorters() {
    let kind = CompressionType::Zlib;
    let options = Store::new(1, Some(4), Some(30_000_000), kind, Some(2), Some(9)).options();
    assert_eq!(options.max_memory, Some(10_000_000));
    assert_eq!(options.max_nb_chunks, Some(4));
    assert_eq!(options.compression_type, CompressionType::Zlib);
    assert_eq!(options.compression_level, Some(2));
    assert_eq!(options.fusing_shrink_size, Some(9));
    let options = Store::new(1, None, Some(3_000_000), kind, None, None).options();
    assert_eq!(options.max_memory, Some(1_048_576));
    assert_eq!(Store::new(1, None, None, kind, None, None).options().max_memory, None);
}

#[test]
fn one_document_in_every_table() {
    let headers = record(&["id", "title"]);
    let records = vec![record(&["7", "Foo bar"])];
    let (progress, tables) = store(100).index_csv(&headers, &records, 3, 0, 1, 10);
    let tables = tables.unwrap();
    assert_eq!(progress, vec![1]);
    assert_eq!(keys(&tables.main), vec![b"fields-ids-map".to_vec(), b"documents-ids".to_vec()]);
    assert_eq!(tables.main[0].value, b"[\"id\",\"title\"]".to_vec());
    assert_eq!(roaring(&tables.main[1].value), vec![3]);
    assert_eq!(keys(&tables.word_docids), vec![b"7".to_vec(), b"bar".to_vec(), b"foo".to_vec()]);
    let docid = vec![0x3a, 0x30, 0, 0, 1, 0, 0, 0, 0, 0, 0, 0, 16, 0, 0, 0, 3, 0];
    assert!(tables.word_docids.iter().all(|entry| entry.value == docid));
    assert_eq!(
        keys(&tables.words_pairs_proximities_docids),
        vec![b"bar\0foo\x02".to_vec(), b"foo\0bar\x01".to_vec()]
    );
    let pairs = &tables.words_pairs_proximities_docids;
    assert!(pairs.iter().all(|entry| entry.value == vec![3, 0, 0, 0]));
    assert_eq!(
        keys(&tables.docid_word_positions),
        vec![b"\0\0\0\x037".to_vec(), b"\0\0\0\x03bar".to_vec(), b"\0\0\0\x03foo".to_vec()]
    );
    assert_eq!(tables.docid_word_positions[1].value, vec![0xe9, 3, 0, 0]);
    assert_eq!(tables.docid_word_positions[2].value, vec![0xe8, 3, 0, 0]);
    assert_eq!(keys(&tables.documents), vec![vec![0, 0, 0, 3]]);
    assert_eq!(tables.documents[0].value, b"\x00\x017\x01\x07Foo bar".to_vec());
}

#[test]
fn a_file_without_records() {
    let (progress, tables) = store(10).index_csv(&record(&["id"]), &Vec::new(), 5, 0, 0, 0);
    let tables = tables.unwrap();
    assert_eq!(progress, vec![0]);
    assert_eq!(tables.main.len(), 2);
    assert_eq!(roaring(&tables.main[1].value), Vec::<u32>::new());
    assert!(tables.word_docids.is_empty());
    assert!(tables.words_pairs_proximities_docids.is_empty());
    assert!(tables.docid_word_positions.is_empty());
    assert!(tables.documents.is_empty());
}

#[test]
fn the_least_recently_used_word_leaves_a_full_cache() {
    let mut store = store(3);
    store.insert_word_docid(b"a", 0);
    store.insert_word_docid(b"b", 0);
    store.insert_word_docid(b"a", 1);
    assert!(store.take_entries().word_docids.is_empty());
    store.insert_word_docid(b"c", 1);
    let out = store.take_entries();
    assert_eq!(keys(&out.word_docids), vec![b"b".to_vec()]);
    assert_eq!(roaring(&out.word_docids[0].value), vec![0]);
    store.insert_word_docid(b"b", 2);
    let out = store.take_entries();
    assert_eq!(keys(&out.word_docids), vec![b"a".to_vec()]);
    assert_eq!(roaring(&out.word_docids[0].value), vec![0, 1]);
    let rest = store.finish();
    assert_eq!(keys(&rest.word_docids), vec![b"c".to_vec(), b"b".to_vec()]);
}

#[test]
fn a_cache_of_one_word_keeps_none() {
    let mut store = store(1);
    store.insert_word_docid(b"a", 4);
    store.insert_word_docid(b"a", 5);
    let out = store.take_entries();
    assert_eq!(keys(&out.word_docids), vec![b"a".to_vec(), b"a".to_vec()]);
    assert_eq!(words_docids(&out)[&b"a".to_vec()], set(&[4, 5]));
    assert!(store.finish().word_docids.is_empty());
}

#[test]
fn a_word_cache_without_limit_keeps_all_words() {
    let mut store = store(0);
    store.insert_word_docid(b"a", 4);
    store.insert_word_docid(b"b", 5);
    assert!(store.take_entries().word_docids.is_empty());
    assert_eq!(keys(&store.finish().word_docids), vec![b"a".to_vec(), b"b".to_vec()]);
}

#[test]
fn pairs_above_the_limit_leave_the_cache() {
    let mut store = store(3);
    store.index_record(0, &record(&["a b"]));
    assert!(store.take_entries().words_pairs_proximities_docids.is_empty());
    store.index_record(1, &record(&["b c"]));
    let out = store.take_entries();
    assert_eq!(keys(&out.words_pairs_proximities_docids), vec![b"a\0b\x01".to_vec()]);
    let rest = store.finish();
    assert_eq!(
        keys(&rest.words_pairs_proximities_docids),
        vec![b"b\0a\x02".to_vec(), b"b\0c\x01".to_vec(), b"c\0b\x02".to_vec()]
    );
}

#[test]
fn words_that_are_no_keys_are_left_out() {
    let long = "x".repeat(512);
    let fits = "y".repeat(511);
    let mut store = store(10);
    store.index_record(1, &record(&[&long, &fits]));
    let tables = store.finish();
    assert_eq!(keys(&tables.word_docids), vec![fits.as_bytes().to_vec()]);
    assert!(tables.docid_word_positions.is_empty());
    assert_eq!(tables.documents.len(), 1);
    let mut other = Store::new(10, None, None, CompressionType::None, None, None);
    other.index_record(1, &record(&[&"z".repeat(507)]));
    assert_eq!(other.finish().docid_word_positions.len(), 1);
}

#[test]
fn small_caches_lose_nothing() {
    let headers = record(&["text"]);
    let texts = ["the cat sat", "the dog sat", "a cat and a dog", "The end"];
    let records: Vec<Vec<String>> = texts.iter().map(|text| record(&[text])).collect();
    let (_, tables) = store(1000).index_csv(&headers, &records, 0, 0, 1, 1);
    let expected = tables.unwrap();
    for size in [0, 1, 2, 3, 5, 8] {
        let (_, tables) = store(size).index_csv(&headers, &records, 0, 0, 1, 1);
        let tables = tables.unwrap();
        assert_eq!(words_docids(&tables), words_docids(&expected));
        assert_eq!(pairs_docids(&tables), pairs_docids(&expected));
        assert_eq!(tables.main, expected.main);
        assert_eq!(tables.documents, expected.documents);
        assert_eq!(tables.docid_word_positions, expected.docid_word_positions);
    }
    let words = words_docids(&expected);
    assert_eq!(words[&b"the".to_vec()], set(&[0, 1, 3]));
    assert_eq!(words[&b"cat".to_vec()], set(&[0, 2]));
    assert_eq!(words.len(), 7);
    let pairs = pairs_docids(&expected);
    assert_eq!(pairs[&b"the\0sat\x02".to_vec()], set(&[0, 1]));
    assert_eq!(pairs[&b"a\0a\x03".to_vec()], set(&[2]));
}

#[test]
fn threads_share_the_documents() {
    let headers = record(&["text"]);
    let texts = ["red", "green red", "blue", "red blue", "green"];
    let records: Vec<Vec<String>> = texts.iter().map(|text| record(&[text])).collect();
    let (_, all) = store(100).index_csv(&headers, &records, 10, 0, 1, 100);
    let all = all.unwrap();
    let mut words: BTreeMap<Vec<u8>, BTreeSet<u32>> = BTreeMap::new();
    let mut documents = BTreeSet::new();
    for thread in 0..3 {
        let (progress, part) = store(100).index_csv(&headers, &records, 10, thread, 3, 100);
        let part = part.unwrap();
        assert_eq!(progress, vec![5]);
        for (word, ids) in words_docids(&part) {
            words.entry(word).or_default().extend(ids);
        }
        for id in roaring(&part.main[1].value) {
            assert_eq!(id as usize % 3, thread);
            assert!(documents.insert(id));
        }
    }
    assert_eq!(words, words_docids(&all));
    assert_eq!(documents, set(&[10, 11, 12, 13, 14]));
}

#[test]
fn a_thread_out_of_range_indexes_nothing() {
    let records = vec![record(&["a"]), record(&["b"])];
    let (progress, tables) = store(10).index_csv(&record(&["t"]), &records, 0, 2, 2, 0);
    assert_eq!(progress, vec![2]);
    assert!(tables.unwrap().documents.is_empty());
}

#[test]
fn documents_and_positions_are_in_order() {
    let records: Vec<Vec<String>> = (0..300).map(|i| record(&[&format!("w{} b a", i)])).collect();
    let (_, tables) = store(10).index_csv(&record(&["t"]), &records, 100, 0, 1, 1000);
    let tables = tables.unwrap();
    let documents = keys(&tables.documents);
    assert_eq!(documents.len(), 300);
    assert!(documents.windows(2).all(|pair| pair[0] < pair[1]));
    let positions = keys(&tables.docid_word_positions);
    assert_eq!(positions.len(), 900);
    assert!(positions.windows(2).all(|pair| pair[0] < pair[1]));
}

#[test]
fn progress_is_reported_every_so_many_documents() {
    let records: Vec<Vec<String>> = (0..7).map(|_| record(&["a"])).collect();
    let (progress, _) = store(10).index_csv(&record(&["t"]), &records, 4, 0, 1, 3);
    assert_eq!(progress, vec![2, 5, 7]);
    let (progress, _) = store(10).index_csv(&record(&["t"]), &records, 4, 0, 2, 3);
    assert_eq!(progress, vec![2, 7]);
}

#[test]
fn too_many_fields_are_refused() {
    let headers: Vec<String> = (0..257).map(|i| format!("f{}", i)).collect();
    let (progress, tables) = store(10).index_csv(&headers, &Vec::new(), 0, 0, 1, 1);
    assert_eq!(tables.err(), Some(IndexError::NoMoreFieldId));
    assert_eq!(IndexError::NoMoreFieldId.message(), "no more field id available");
    assert!(progress.is_empty());
}

#[test]
fn ids_that_are_too_big_are_refused() {
    let records = vec![record(&["a"]), record(&["b"]), record(&["c"])];
    let base = u32::MAX as usize;
    let (progress, tables) = store(10).index_csv(&record(&["t"]), &records, base, 0, 1, 1);
    assert_eq!(tables.err(), Some(IndexError::DocumentIdTooBig));
    assert_eq!(IndexError::DocumentIdTooBig.message(), "generated id is too big");
    assert_eq!(progress, vec![0, 1]);
    let (_, tables) = store(10).index_csv(&record(&["t"]), &records[..1].to_vec(), base, 0, 1, 1);
    assert_eq!(keys(&tables.unwrap().documents), vec![vec![255, 255, 255, 255]]);
}

#[test]
fn a_cursor_steps_through_the_records() {
    let mut cursor = Cursor::new(5, 1, 2, 5);
    assert_eq!(cursor.next(), Step { progress: Some(0), turn: Turn::Index { id: 5 } });
    assert_eq!(cursor.next(), Step { progress: None, turn: Turn::Skip });
    assert_eq!(cursor.next(), Step { progress: None, turn: Turn::Index { id: 7 } });
    assert_eq!(cursor.seen(), 3);
    let mut cursor = Cursor::new(u32::MAX as usize + 1, 0, 1, 2);
    assert_eq!(cursor.next(), Step { progress: Some(0), turn: Turn::TooBig });
    assert_eq!(cursor.document_id, u32::MAX as usize + 1);
}

#[test]
fn entries_are_handed_out_once() {
    let mut store = store(10);
    store.index_record(2, &record(&["a"]));
    let out = store.take_entries();
    assert_eq!(keys(&out.documents), vec![vec![0, 0, 0, 2]]);
    assert!(store.take_entries().documents.is_empty());
    let rest = store.finish();
    assert!(rest.documents.is_empty());
    assert_eq!(keys(&rest.word_docids), vec![b"a".to_vec()]);
    assert_eq!(roaring(&rest.main[0].value), vec![2]);
}

#[test]
fn the_words_fst_is_an_entry_of_the_main_table() {
    let words_fst = WordsFstBuilder::new().insert(b"a").unwrap().into_fst();
    let mut entries = Vec::new();
    write_words_fst(&mut entries, &words_fst);
    assert_eq!(entries.len(), 1);
    assert_eq!(entries[0].key, b"words-fst".to_vec());
    assert!(fst::Set::new(entries[0].value.clone()).unwrap().contains("a"));
}

#[test]
fn pairs_have_keys_of_their_own() {
    let mut store = store(100);
    store.index_record(0, &record(&["a bc"]));
    store.index_record(1, &record(&["ab c"]));
    let pairs = pairs_docids(&store.finish());
    assert_eq!(pairs[&b"a\0bc\x01".to_vec()], set(&[0]));
    assert_eq!(pairs[&b"ab\0c\x01".to_vec()], set(&[1]));
    assert_eq!(pairs.len(), 4);
}

#[test]
fn positions_are_read_back() {
    let mut store = store(100);
    store.index_record(0, &record(&["a b a", "c a"]));
    let tables = store.finish();
    let value = &tables.docid_word_positions[0].value;
    let positions: Vec<u32> = value
        .chunks(4)
        .map(|word| u32::from_le_bytes([word[0], word[1], word[2], word[3]]))
        .collect();
    assert_eq!(positions, vec![0, 2, 1001]);
}

#[test]
fn merging_gives_the_documents_of_a_word() {
    let headers = record(&["text"]);
    let records: Vec<Vec<String>> = (0..20).map(|_| record(&["same other"])).collect();
    let (_, tables) = store(1).index_csv(&headers, &records, 0, 0, 1, 100);
    let tables = tables.unwrap();
    let words: Vec<Cow<[u8]>> = tables
        .word_docids
        .iter()
        .filter(|entry| entry.key == b"same".to_vec())
        .map(|entry| Cow::Borrowed(&entry.value[..]))
        .collect();
    assert_eq!(words.len(), 20);
    let merged = word_docids_merge(b"same", &words).unwrap();
    assert_eq!(roaring(&merged), (0..20).collect::<Vec<u32>>());
    let key = b"other\0same\x02";
    let pairs: Vec<Cow<[u8]>> = tables
        .words_pairs_proximities_docids
        .iter()
        .filter(|entry| entry.key == key.to_vec())
        .map(|entry| Cow::Borrowed(&entry.value[..]))
        .collect();
    assert_eq!(pairs.len(), 20);
    let merged = words_pairs_proximities_docids_merge(key, &pairs).unwrap();
    assert_eq!(roaring(&merged), (0..20).collect::<Vec<u32>>());
}

#[test]
fn what_is_handed_out_on_the_way_is_what_is_left_at_the_end() {
    let headers = record(&["text"]);
    let texts = ["the cat sat", "the dog sat", "a cat and a dog", "The end"];
    let records: Vec<Vec<String>> = texts.iter().map(|text| record(&[text])).collect();
    let (_, tables) = store(2).index_csv(&headers, &records, 0, 0, 1, 1);
    let expected = tables.unwrap();
    let mut store = store(2);
    store.write_fields_ids_map(&fields_of(&headers).unwrap());
    let mut parts = Vec::new();
    for (id, fields) in records.iter().enumerate() {
        store.index_record(id as u32, fields);
        parts.push(store.take_entries());
    }
    parts.push(store.finish());
    let mut all = Tables::new();
    for part in parts {
        all.main.extend(part.main);
        all.word_docids.extend(part.word_docids);
        all.docid_word_positions.extend(part.docid_word_positions);
        all.words_pairs_proximities_docids.extend(part.words_pairs_proximities_docids);
        all.documents.extend(part.documents);
    }
    assert_eq!(all.main, expected.main);
    assert_eq!(all.word_docids, expected.word_docids);
    assert_eq!(all.docid_word_positions, expected.docid_word_positions);
    assert_eq!(all.words_pairs_proximities_docids, expected.words_pairs_proximities_docids);
    assert_eq!(all.documents, expected.documents);
}

#[test]
fn no_key_is_without_a_document() {
    let records = vec![record(&["a b"]), record(&["c"]), record(&["b c"])];
    let (_, tables) = store(2).index_csv(&record(&["t"]), &records, 0, 0, 2, 1);
    let tables = tables.unwrap();
    assert!(words_docids(&tables).values().all(|ids| !ids.is_empty()));
    assert!(pairs_docids(&tables).values().all(|ids| !ids.is_empty()));
    let words: Vec<Vec<u8>> = words_docids(&tables).keys().cloned().collect();
    assert_eq!(words, vec![b"a".to_vec(), b"b".to_vec(), b"c".to_vec()]);
    assert_eq!(words_docids(&tables)[&b"c".to_vec()], set(&[2]));
}

#[test]
fn threads_write_the_rows_of_one_thread() {
    let headers = record(&["text"]);
    let texts = ["red", "green red", "blue", "red blue", "green"];
    let records: Vec<Vec<String>> = texts.iter().map(|text| record(&[text])).collect();
    let (_, all) = store(100).index_csv(&headers, &records, 254, 0, 1, 100);
    let all = all.unwrap();
    let mut documents = Vec::new();
    let mut positions = Vec::new();
    for thread in 0..2 {
        let (_, part) = store(100).index_csv(&headers, &records, 254, thread, 2, 100);
        let part = part.unwrap();
        documents.extend(part.documents);
        positions.extend(part.docid_word_positions);
    }
    documents.sort_by(|a, b| a.key.cmp(&b.key));
    positions.sort_by(|a, b| a.key.cmp(&b.key));
    assert_eq!(documents, all.documents);
    assert_eq!(positions, all.docid_word_positions);
}
