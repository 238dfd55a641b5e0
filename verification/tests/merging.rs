use fst::Streamer;
use indexing::codec::{BoRoaringBitmapCodec, CboRoaringBitmapCodec};
use indexing::keys::{DOCUMENTS_IDS_KEY, FIELDS_IDS_MAP_KEY, WORDS_FST_KEY};
use indexing::merge_function::{
    checked_merge, docid_word_positions_merge, documents_merge, main_merge, merge_words_fsts,
    word_docids_merge, words_pairs_proximities_docids_merge, MergeError, Table,
};
use indexing::words_fst::{WordsFst, WordsFstBuilder, WordsOutOfOrder};
use roaring::RoaringBitmap;
use std::borrow::Cow;

fn bitmap(ids: &[u32]) -> RoaringBitmap {
    ids.iter().cloned().collect()
}

fn roaring_bytes(ids: &[u32]) -> Vec<u8> {
    let mut bytes = Vec::new();
    bitmap(ids).serialize_into(&mut bytes).unwrap();
    bytes
}

fn cbo_bytes(ids: &[u32]) -> Vec<u8> {
    let mut bytes = Vec::new();
    CboRoaringBitmapCodec::serialize_into(&bitmap(ids), &mut bytes);
    bytes
}

fn fst_of(words: &[&str]) -> WordsFst {
    let mut builder = WordsFstBuilder::new();
    for word in words {
        builder = builder.insert(word.as_bytes()).unwrap();
    }
    builder.into_fst()
}

fn words_in(bytes: &[u8]) -> Vec<String> {
    let set = fst::Set::new(bytes).unwrap();
    let mut stream = set.stream();
    let mut words = Vec::new();
    while let Some(word) = stream.next() {
        words.push(String::from_utf8(word.to_vec()).unwrap());
    }
    words
}

fn refused(reason: &str) -> Result<Vec<u8>, MergeError> {
    Err(MergeError::InvalidDocids { reason: reason.to_string() })
}

#[test]
fn plain_form_is_ascending_little_endian() {
    let bytes = BoRoaringBitmapCodec::bytes_encode(&bitmap(&[258, 1]));
    assert_eq!(bytes, vec![1, 0, 0, 0, 2, 1, 0, 0]);
    assert_eq!(BoRoaringBitmapCodec::bytes_encode(&bitmap(&[])), Vec::<u8>::new());
}

#[test]
fn conditional_form_is_plain_up_to_seven() {
    assert_eq!(cbo_bytes(&[3]), vec![3, 0, 0, 0]);
    assert_eq!(cbo_bytes(&[1, 2, 3, 4, 5, 6, 7]).len(), 28);
    assert_eq!(cbo_bytes(&[1, 2, 3, 4, 5, 6, 7, 8]), roaring_bytes(&[1, 2, 3, 4, 5, 6, 7, 8]));
    assert_eq!(cbo_bytes(&[1, 2, 3, 4, 5, 6, 7, 8]).len(), 32);
}

#[test]
fn conditional_form_appends() {
    let mut bytes = vec![9];
    CboRoaringBitmapCodec::serialize_into(&bitmap(&[3]), &mut bytes);
    assert_eq!(bytes, vec![9, 3, 0, 0, 0]);
}

#[test]
fn conditional_form_reads_back() {
    let many: Vec<u32> = (0..100_000).step_by(7).collect();
    for ids in [&[][..], &[5][..], &[1, 2, 3, 4, 5, 6, 7][..], &many[..]] {
        let read = CboRoaringBitmapCodec::deserialize_from(&cbo_bytes(ids)).unwrap();
        assert_eq!(read, bitmap(ids));
    }
    let refused = CboRoaringBitmapCodec::deserialize_from(&[0xff; 40]);
    assert_eq!(refused.err(), Some("unknown cookie value".to_string()));
}

#[test]
fn conditional_form_passes_over_an_incomplete_integer() {
    let read = CboRoaringBitmapCodec::deserialize_from(&[1, 0, 0, 0, 2, 0]).unwrap();
    assert_eq!(read, bitmap(&[1]));
}

#[test]
fn word_docids_are_united() {
    let a = roaring_bytes(&[1, 5]);
    let b = roaring_bytes(&[5, 70_000]);
    let c = roaring_bytes(&[0]);
    let values = [Cow::Borrowed(&a[..]), Cow::Owned(b), Cow::Borrowed(&c[..])];
    let merged = word_docids_merge(b"word", &values).unwrap();
    assert_eq!(merged, roaring_bytes(&[0, 1, 5, 70_000]));
}

#[test]
fn one_value_merges_to_itself() {
    let a = roaring_bytes(&[7]);
    assert_eq!(a, vec![0x3a, 0x30, 0, 0, 1, 0, 0, 0, 0, 0, 0, 0, 16, 0, 0, 0, 7, 0]);
    let merged = word_docids_merge(b"word", &[Cow::Borrowed(&a[..])]).unwrap();
    assert_eq!(merged, a);
}

#[test]
fn word_docids_that_are_no_sets_are_refused() {
    let a = roaring_bytes(&[1]);
    let values = [Cow::Borrowed(&a[..]), Cow::Borrowed(&b"nothing"[..])];
    assert_eq!(word_docids_merge(b"word", &values), refused("unknown cookie value"));
    let values = [Cow::Borrowed(&b""[..]), Cow::Borrowed(&a[..])];
    assert_eq!(word_docids_merge(b"word", &values), refused("failed to fill whole buffer"));
    let values = [Cow::Borrowed(&b""[..]), Cow::Borrowed(&b"nothing"[..])];
    assert_eq!(word_docids_merge(b"word", &values), refused("failed to fill whole buffer"));
}

#[test]
fn pairs_are_united_in_the_conditional_form() {
    let a = cbo_bytes(&[1, 2, 3]);
    let b = cbo_bytes(&[3, 4]);
    let values = [Cow::Borrowed(&a[..]), Cow::Borrowed(&b[..])];
    let merged = words_pairs_proximities_docids_merge(b"key", &values).unwrap();
    assert_eq!(merged, cbo_bytes(&[1, 2, 3, 4]));
    assert_eq!(merged.len(), 16);
}

#[test]
fn pairs_grow_over_the_threshold() {
    let a = cbo_bytes(&[1, 2, 3, 4, 5]);
    let b = cbo_bytes(&[6, 7, 8]);
    let values = [Cow::Borrowed(&a[..]), Cow::Borrowed(&b[..])];
    let merged = words_pairs_proximities_docids_merge(b"key", &values).unwrap();
    assert_eq!(merged, roaring_bytes(&[1, 2, 3, 4, 5, 6, 7, 8]));
}

#[test]
fn pairs_that_are_no_sets_are_refused() {
    let damaged = [0xff_u8; 40];
    let values = [Cow::Borrowed(&damaged[..])];
    assert_eq!(
        words_pairs_proximities_docids_merge(b"key", &values),
        refused("unknown cookie value")
    );
}

#[test]
fn merging_in_groups_is_merging_at_once() {
    let a = cbo_bytes(&[1, 9]);
    let b = cbo_bytes(&[2, 9, 10, 11]);
    let c = cbo_bytes(&[3, 4, 5, 6]);
    let all = [Cow::Borrowed(&a[..]), Cow::Borrowed(&b[..]), Cow::Borrowed(&c[..])];
    let at_once = words_pairs_proximities_docids_merge(b"key", &all).unwrap();
    let first = words_pairs_proximities_docids_merge(b"key", &all[..2]).unwrap();
    let grouped = [Cow::Borrowed(&c[..]), Cow::Borrowed(&first[..])];
    let in_groups = words_pairs_proximities_docids_merge(b"key", &grouped).unwrap();
    assert_eq!(at_once, in_groups);
    let twice = [Cow::Borrowed(&at_once[..]), Cow::Borrowed(&at_once[..])];
    assert_eq!(words_pairs_proximities_docids_merge(b"key", &twice).unwrap(), at_once);
}

#[test]
fn word_docids_in_groups_are_word_docids_at_once() {
    let a = roaring_bytes(&[1, 9]);
    let b = roaring_bytes(&[2, 9]);
    let all = [Cow::Borrowed(&a[..]), Cow::Borrowed(&b[..]), Cow::Borrowed(&a[..])];
    let first = word_docids_merge(b"w", &all[..2]).unwrap();
    let grouped = [Cow::Borrowed(&a[..]), Cow::Borrowed(&first[..])];
    assert_eq!(word_docids_merge(b"w", &all).unwrap(), word_docids_merge(b"w", &grouped).unwrap());
}

#[test]
fn word_positions_and_documents_are_never_merged() {
    let values = [Cow::Borrowed(&b"a"[..]), Cow::Borrowed(&b"a"[..])];
    assert_eq!(
        docid_word_positions_merge(b"key", &values),
        Err(MergeError::DocidWordPositions { key: b"key".to_vec() })
    );
    assert_eq!(
        documents_merge(b"key", &values),
        Err(MergeError::Documents { key: b"key".to_vec() })
    );
}

#[test]
fn fields_must_be_the_same_everywhere() {
    let key = FIELDS_IDS_MAP_KEY.as_bytes();
    let same = [Cow::Borrowed(&b"[\"id\"]"[..]), Cow::Owned(b"[\"id\"]".to_vec())];
    assert_eq!(main_merge(key, &same).unwrap(), b"[\"id\"]".to_vec());
    let others = [
        Cow::Borrowed(&b"[\"id\"]"[..]),
        Cow::Borrowed(&b"[\"id\"]"[..]),
        Cow::Borrowed(&b"[]"[..]),
    ];
    assert_eq!(main_merge(key, &others), Err(MergeError::FieldsIdsMapMismatch));
}

#[test]
fn documents_ids_are_united() {
    let a = roaring_bytes(&[0, 2]);
    let b = roaring_bytes(&[1, 3]);
    let values = [Cow::Borrowed(&a[..]), Cow::Borrowed(&b[..])];
    let merged = main_merge(DOCUMENTS_IDS_KEY.as_bytes(), &values).unwrap();
    assert_eq!(merged, roaring_bytes(&[0, 1, 2, 3]));
}

#[test]
fn the_main_table_has_three_keys() {
    assert_eq!(WORDS_FST_KEY, "words-fst");
    assert_eq!(FIELDS_IDS_MAP_KEY, "fields-ids-map");
    assert_eq!(DOCUMENTS_IDS_KEY, "documents-ids");
    assert_eq!(
        main_merge(b"words", &[]),
        Err(MergeError::UnknownKey { key: b"words".to_vec() })
    );
}

#[test]
fn words_fsts_are_united() {
    let fsts = vec![fst_of(&["bar", "foo"]), fst_of(&["baz", "foo", "quux"]), fst_of(&[])];
    let merged = merge_words_fsts(&fsts);
    assert_eq!(words_in(&merged), vec!["bar", "baz", "foo", "quux"]);
    let values: Vec<Cow<[u8]>> = fsts.iter().map(|f| Cow::Borrowed(f.as_bytes())).collect();
    assert_eq!(main_merge(WORDS_FST_KEY.as_bytes(), &values).unwrap(), merged);
    assert_eq!(merged, fst_of(&["bar", "baz", "foo", "quux"]).as_bytes());
}

#[test]
fn words_fsts_in_groups_are_words_fsts_at_once() {
    let a = fst_of(&["a", "c"]);
    let b = fst_of(&["b"]);
    let c = fst_of(&["c", "d"]);
    let key = WORDS_FST_KEY.as_bytes();
    let all =
        [Cow::Borrowed(a.as_bytes()), Cow::Borrowed(b.as_bytes()), Cow::Borrowed(c.as_bytes())];
    let first = main_merge(key, &all[..2]).unwrap();
    let grouped = [Cow::Borrowed(&first[..]), Cow::Borrowed(c.as_bytes())];
    assert_eq!(main_merge(key, &all).unwrap(), main_merge(key, &grouped).unwrap());
}

#[test]
fn no_words_fsts_merge_to_no_words() {
    assert_eq!(words_in(&merge_words_fsts(&vec![])), Vec::<String>::new());
}

#[test]
fn words_are_given_to_an_fst_in_order() {
    let builder = WordsFstBuilder::new().insert(b"foo").unwrap();
    assert_eq!(builder.insert(b"bar").err(), Some(WordsOutOfOrder));
    let words_fst = fst_of(&["bar", "bar", "foo"]);
    assert_eq!(words_in(words_fst.as_bytes()), vec!["bar", "foo"]);
}

#[test]
fn checked_merge_merges_what_is_intact() {
    let a = roaring_bytes(&[1]);
    let b = roaring_bytes(&[2]);
    let values = [Cow::Borrowed(&a[..]), Cow::Borrowed(&b[..])];
    assert_eq!(
        checked_merge(Table::WordDocids, b"w", &values),
        Some(Ok(roaring_bytes(&[1, 2])))
    );
    assert_eq!(
        checked_merge(Table::Main, DOCUMENTS_IDS_KEY.as_bytes(), &values),
        Some(Ok(roaring_bytes(&[1, 2])))
    );
    let c = cbo_bytes(&[1]);
    assert_eq!(
        checked_merge(Table::WordsPairsProximitiesDocids, b"k", &[Cow::Borrowed(&c[..])]),
        Some(Ok(c.clone()))
    );
    assert_eq!(
        checked_merge(Table::Main, FIELDS_IDS_MAP_KEY.as_bytes(), &values),
        Some(Err(MergeError::FieldsIdsMapMismatch))
    );
    assert_eq!(
        checked_merge(Table::Documents, b"k", &values),
        Some(Err(MergeError::Documents { key: b"k".to_vec() }))
    );
    assert_eq!(
        checked_merge(Table::DocidWordPositions, b"k", &values),
        Some(Err(MergeError::DocidWordPositions { key: b"k".to_vec() }))
    );
}

#[test]
fn checked_merge_leaves_what_is_not_intact() {
    // The two values of the only container are out of order.
    let mut damaged = roaring_bytes(&[3, 8]);
    let len = damaged.len();
    damaged[len - 4] = 9;
    let values = [Cow::Borrowed(&damaged[..])];
    assert_eq!(checked_merge(Table::WordDocids, b"w", &values), None);
    assert_eq!(checked_merge(Table::WordDocids, b"w", &[]), None);
    assert_eq!(checked_merge(Table::WordsPairsProximitiesDocids, b"w", &[]), None);
    assert_eq!(checked_merge(Table::Main, FIELDS_IDS_MAP_KEY.as_bytes(), &[]), None);
    assert_eq!(checked_merge(Table::Main, DOCUMENTS_IDS_KEY.as_bytes(), &values), None);
    let words_fst = fst_of(&["a"]);
    let values = [Cow::Borrowed(words_fst.as_bytes())];
    assert_eq!(checked_merge(Table::Main, WORDS_FST_KEY.as_bytes(), &values), None);
}

#[test]
fn an_unreadable_value_is_an_error_whatever_the_others_are() {
    let mut damaged = roaring_bytes(&[3, 8]);
    let len = damaged.len();
    damaged[len - 4] = 9;
    let values = [Cow::Borrowed(&damaged[..]), Cow::Borrowed(&b"nothing"[..])];
    let error = refused("unknown cookie value");
    assert_eq!(word_docids_merge(b"w", &values), error);
    assert_eq!(checked_merge(Table::WordDocids, b"w", &values), Some(error.clone()));
    let key = DOCUMENTS_IDS_KEY.as_bytes();
    assert_eq!(main_merge(key, &values), error);
    let mut long = cbo_bytes(&[1, 2, 3, 4, 5, 6, 7, 8]);
    let len = long.len();
    long[len - 2] = 0;
    let values = [Cow::Borrowed(&long[..]), Cow::Borrowed(&[0xff_u8; 40][..])];
    assert_eq!(words_pairs_proximities_docids_merge(b"k", &values), error);
    assert_eq!(checked_merge(Table::WordsPairsProximitiesDocids, b"k", &values[..1]), None);
}

#[test]
fn the_offsets_of_a_set_are_not_read() {
    let mut altered = roaring_bytes(&[3, 8]);
    altered[12] = 99;
    let b = roaring_bytes(&[5]);
    let values = [Cow::Borrowed(&altered[..]), Cow::Borrowed(&b[..])];
    let merged = roaring_bytes(&[3, 5, 8]);
    assert_eq!(word_docids_merge(b"w", &values), Ok(merged.clone()));
    assert_eq!(checked_merge(Table::WordDocids, b"w", &values), Some(Ok(merged)));
}

#[test]
fn errors_say_what_is_wrong() {
    let message = |error: Result<Vec<u8>, MergeError>| error.unwrap_err().message();
    let values = [Cow::Borrowed(&b"a"[..]), Cow::Borrowed(&b"b"[..])];
    assert_eq!(
        message(main_merge(FIELDS_IDS_MAP_KEY.as_bytes(), &values)),
        "fields ids map doesn't match"
    );
    assert_eq!(message(main_merge(&[1, 255], &values)), "wut [1, 255]");
    assert_eq!(message(word_docids_merge(b"w", &values)), "failed to fill whole buffer");
    assert_eq!(
        message(docid_word_positions_merge(b"key\xff", &values)),
        "merging docid word positions is an error (\"key\\xFF\")"
    );
    assert_eq!(
        message(documents_merge(b"key\0", &values)),
        "merging documents is an error (\"key\\0\")"
    );
}

#[test]
fn what_follows_a_set_is_not_read() {
    let mut longer = roaring_bytes(&[3, 8]);
    longer.extend_from_slice(b"more");
    let b = roaring_bytes(&[5]);
    let values = [Cow::Borrowed(&longer[..]), Cow::Borrowed(&b[..])];
    let merged = roaring_bytes(&[3, 5, 8]);
    assert_eq!(word_docids_merge(b"w", &values), Ok(merged.clone()));
    assert_eq!(checked_merge(Table::WordDocids, b"w", &values), Some(Ok(merged)));
}

#[test]
fn documents_ids_are_merged_as_the_docids_of_a_word() {
    let a = roaring_bytes(&[1, 9]);
    let b = roaring_bytes(&[2]);
    let key = DOCUMENTS_IDS_KEY.as_bytes();
    let values = [Cow::Borrowed(&a[..]), Cow::Borrowed(&b[..])];
    assert_eq!(main_merge(key, &values), word_docids_merge(b"any", &values));
    let values = [Cow::Borrowed(&a[..]), Cow::Borrowed(&b"no"[..])];
    assert_eq!(main_merge(key, &values), word_docids_merge(b"any", &values));
}

#[test]
fn words_fsts_of_any_builder_are_united() {
    let map = fst::Map::from_iter(vec![("b", 3), ("d", 5)]).unwrap();
    let words_fst = fst_of(&["a", "b"]);
    let values = [Cow::Borrowed(map.as_fst().as_bytes()), Cow::Borrowed(words_fst.as_bytes())];
    let merged = main_merge(WORDS_FST_KEY.as_bytes(), &values).unwrap();
    assert_eq!(merged, fst_of(&["a", "b", "d"]).as_bytes());
}
