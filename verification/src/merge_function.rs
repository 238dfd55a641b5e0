//! How the values that several sorted chunks hold under one key become one value.
use crate::bytes::{ascending, bytes_equal, to_bytes};
use crate::codec::{cbo_bytes, cbo_ids, cbo_intact, cbo_read_is_sound, CboRoaringBitmapCodec};
use crate::docids::{
    bitmap_ids, bitmap_sound, deserialize_bitmap, read_is_sound, roaring_bytes, roaring_ids,
    roaring_intact, roaring_refusal, serialize_bitmap,
};
use crate::keys::{
    lemma_main_keys_differ, DOCUMENTS_IDS_KEY, FIELDS_IDS_MAP_KEY, WORDS_FST_KEY,
};
use crate::text::{bstr_debug, bytes_debug, debug_bstr, debug_bytes, enclose};
use crate::words_fst::{
    all_bytes, fst_bytes, fst_words, in_some_fst, in_some_list, is_union, is_words_fst, op_builder,
    op_lists, op_push, op_union, set_builder, set_builder_extend, set_builder_into_bytes,
    set_open, set_words, union_words, WordsFst,
};
use roaring::RoaringBitmap;
use std::borrow::Cow;
use vstd::prelude::*;
use vstd::string::{StringExecFns, StringSliceAdditionalSpecFns};

verus! {

/// Why values could not be merged.
#[derive(Clone, PartialEq, Eq, Debug)]
pub enum MergeError {
    /// The chunks disagree on the fields of the documents.
    FieldsIdsMapMismatch,
    /// The main table has no such key.
    UnknownKey { key: Vec<u8> },
    /// A value is not a set of document ids, for this reason.
    InvalidDocids { reason: String },
    /// Each document has its word positions once, so there is nothing to merge.
    DocidWordPositions { key: Vec<u8> },
    /// Each document is stored once, so there is nothing to merge.
    Documents { key: Vec<u8> },
}

/// What an error says.
pub open spec fn merge_message(error: MergeError) -> Seq<char> {
    match error {
        MergeError::FieldsIdsMapMismatch => "fields ids map doesn't match"@,
        MergeError::UnknownKey { key } => "wut "@ + bytes_debug(key@),
        MergeError::InvalidDocids { reason } => reason@,
        MergeError::DocidWordPositions { key } => {
            "merging docid word positions is an error ("@ + bstr_debug(key@) + ")"@
        },
        MergeError::Documents { key } => "merging documents is an error ("@ + bstr_debug(key@)
            + ")"@,
    }
}

impl MergeError {
    /// What the error says.
    pub fn message(&self) -> (message: String)
        ensures
            message@ == merge_message(*self),
    {
        match self {
            MergeError::FieldsIdsMapMismatch => "fields ids map doesn't match".to_owned(),
            MergeError::UnknownKey { key } => "wut ".to_owned().concat(
                debug_bytes(key.as_slice()).as_str(),
            ),
            MergeError::InvalidDocids { reason } => reason.as_str().to_owned(),
            MergeError::DocidWordPositions { key } => enclose(
                "merging docid word positions is an error (",
                debug_bstr(key.as_slice()).as_str(),
                ")",
            ),
            MergeError::Documents { key } => enclose(
                "merging documents is an error (",
                debug_bstr(key.as_slice()).as_str(),
                ")",
            ),
        }
    }
}

/// The set that each value holds, in the roaring form.
pub open spec fn roaring_sets(values: Seq<Seq<u8>>) -> Seq<Option<Set<u32>>> {
    values.map_values(|value: Seq<u8>| roaring_ids(value))
}

/// The set that each value holds, in the conditional form.
pub open spec fn cbo_sets(values: Seq<Seq<u8>>) -> Seq<Option<Set<u32>>> {
    values.map_values(|value: Seq<u8>| cbo_ids(value))
}

/// Whether each value holds a set.
pub open spec fn all_hold(sets: Seq<Option<Set<u32>>>) -> bool {
    forall|i: int| 0 <= i < sets.len() ==> (#[trigger] sets[i]) is Some
}

/// Whether a value is the first that holds no set.
pub open spec fn first_without(sets: Seq<Option<Set<u32>>>, i: int) -> bool {
    &&& 0 <= i < sets.len()
    &&& sets[i] is None
    &&& forall|j: int| 0 <= j < i ==> (#[trigger] sets[j]) is Some
}

/// Whether an error is the reason why the first value that holds no set holds none.
pub open spec fn refused_for(
    error: MergeError,
    sets: Seq<Option<Set<u32>>>,
    values: Seq<Seq<u8>>,
) -> bool {
    &&& error matches MergeError::InvalidDocids { reason }
    &&& exists|i: int| #[trigger]
        first_without(sets, i) && reason@ == roaring_refusal(values[i])
}

/// Whether sets in the roaring form can be merged: there is one, and each that is read is sound.
/// Where a value holds no set, the others are not looked at.
pub open spec fn roaring_mergeable(values: Seq<Seq<u8>>) -> bool {
    &&& values.len() > 0
    &&& all_hold(roaring_sets(values)) ==> forall|i: int|
        0 <= i < values.len() ==> roaring_intact(#[trigger] values[i])
}

/// Whether sets in the conditional form can be merged: there is one, and each that is read is
/// sound. Where a value holds no set, the others are not looked at.
pub open spec fn cbo_mergeable(values: Seq<Seq<u8>>) -> bool {
    &&& values.len() > 0
    &&& all_hold(cbo_sets(values)) ==> forall|i: int|
        0 <= i < values.len() ==> cbo_intact(#[trigger] values[i])
}

/// Whether an id is in one of the sets.
pub open spec fn in_some_set(sets: Seq<Option<Set<u32>>>, id: u32) -> bool {
    exists|i: int| 0 <= i < sets.len() && (#[trigger] sets[i])->0.contains(id) && sets[i] is Some
}

/// The ids of all the sets.
pub open spec fn union_of(sets: Seq<Option<Set<u32>>>) -> Set<u32> {
    Set::new(|id: u32| in_some_set(sets, id))
}

/// What merging sets in the roaring form gives: their union in that form, which can be merged
/// again, or an error where a value holds no set.
pub open spec fn roaring_merged(
    values: Seq<Seq<u8>>,
    merged: Result<Vec<u8>, MergeError>,
) -> bool {
    match merged {
        Ok(bytes) => {
            &&& all_hold(roaring_sets(values))
            &&& bytes@ == roaring_bytes(union_of(roaring_sets(values)))
            &&& roaring_ids(bytes@) == Some(union_of(roaring_sets(values)))
            &&& roaring_intact(bytes@)
        },
        Err(error) => refused_for(error, roaring_sets(values), values),
    }
}

/// What merging sets in the conditional form gives: their union in that form, which can be merged
/// again, or an error where a value holds no set.
pub open spec fn cbo_merged(values: Seq<Seq<u8>>, merged: Result<Vec<u8>, MergeError>) -> bool {
    match merged {
        Ok(bytes) => {
            &&& all_hold(cbo_sets(values))
            &&& bytes@ == cbo_bytes(union_of(cbo_sets(values)))
            &&& cbo_ids(bytes@) == Some(union_of(cbo_sets(values)))
            &&& cbo_intact(bytes@)
        },
        Err(error) => refused_for(error, cbo_sets(values), values),
    }
}

/// Whether all values are the same.
pub open spec fn all_same(values: Seq<Seq<u8>>) -> bool {
    forall|i: int| 0 <= i < values.len() ==> #[trigger] values[i] == values[0]
}

/// What merging values of the main table gives.
pub open spec fn main_merged(
    key: Seq<u8>,
    values: Seq<Seq<u8>>,
    merged: Result<Vec<u8>, MergeError>,
) -> bool {
    if key == WORDS_FST_KEY.spec_bytes() {
        &&& merged matches Ok(bytes)
        &&& is_words_fst(bytes@)
        &&& is_union(fst_words(bytes@), values)
        &&& bytes@ == fst_bytes(fst_words(bytes@))
    } else if key == FIELDS_IDS_MAP_KEY.spec_bytes() {
        match merged {
            Ok(bytes) => all_same(values) && bytes@ == values[0],
            Err(error) => !all_same(values) && error is FieldsIdsMapMismatch,
        }
    } else if key == DOCUMENTS_IDS_KEY.spec_bytes() {
        roaring_merged(values, merged)
    } else {
        &&& merged matches Err(MergeError::UnknownKey { key: unknown })
        &&& unknown@ == key
    }
}

/// Whether the main table can merge values under a key: there is one where one is needed, what
/// should be an fst is one, and sets that are read are sound.
pub open spec fn main_mergeable(key: Seq<u8>, values: Seq<Seq<u8>>) -> bool {
    if key == WORDS_FST_KEY.spec_bytes() {
        forall|i: int| 0 <= i < values.len() ==> is_words_fst(#[trigger] values[i])
    } else if key == FIELDS_IDS_MAP_KEY.spec_bytes() {
        values.len() > 0
    } else if key == DOCUMENTS_IDS_KEY.spec_bytes() {
        roaring_mergeable(values)
    } else {
        true
    }
}

/// The bytes of a value, owned or not.
fn value_bytes<'a>(value: &'a Cow<'_, [u8]>) -> (bytes: &'a [u8])
    ensures
        bytes@ == value@,
{
    match value {
        Cow::Borrowed(bytes) => bytes,
        Cow::Owned(bytes) => bytes.as_slice(),
    }
}

/// Whether all values are the same.
fn all_values_same(values: &[Cow<[u8]>]) -> (same: bool)
    ensures
        same == all_same(all_bytes(values@)),
{
    let ghost all = all_bytes(values@);
    let mut i: usize = 1;
    while i < values.len()
        invariant
            1 <= i,
            values@.len() > 0 ==> i <= values@.len(),
            all == all_bytes(values@),
            forall|j: int| 0 <= j < i && j < all.len() ==> #[trigger] all[j] == all[0],
        decreases values@.len() - i,
    {
        assert(all[i - 1] == values@[i - 1]@);
        assert(all[i as int] == values@[i as int]@);
        if !bytes_equal(value_bytes(&values[i - 1]), value_bytes(&values[i])) {
            return false;
        }
        i += 1;
    }
    true
}

/// The fst of the words of several fsts.
fn unite_fsts(values: &[Cow<[u8]>]) -> (bytes: Vec<u8>)
    requires
        forall|i: int|
            0 <= i < values@.len() ==> is_words_fst(#[trigger] all_bytes(values@)[i]),
    ensures
        is_words_fst(bytes@),
        is_union(fst_words(bytes@), all_bytes(values@)),
        bytes@ == fst_bytes(fst_words(bytes@)),
{
    let ghost all = all_bytes(values@);
    let mut sets: Vec<fst::Set<&[u8]>> = Vec::new();
    let mut i: usize = 0;
    while i < values.len()
        invariant
            i <= values@.len(),
            all == all_bytes(values@),
            forall|j: int| 0 <= j < all.len() ==> is_words_fst(#[trigger] all[j]),
            sets@.len() == i,
            forall|j: int| 0 <= j < i ==> set_words(#[trigger] sets@[j]) == fst_words(all[j]),
        decreases values@.len() - i,
    {
        assert(all[i as int] == values@[i as int]@);
        sets.push(set_open(value_bytes(&values[i])));
        i += 1;
    }
    let mut op = op_builder();
    let mut i: usize = 0;
    while i < sets.len()
        invariant
            i <= sets@.len(),
            sets@.len() == all.len(),
            forall|j: int|
                0 <= j < sets@.len() ==> set_words(#[trigger] sets@[j]) == fst_words(all[j]),
            op_lists(op).len() == i,
            forall|j: int| 0 <= j < i ==> #[trigger] op_lists(op)[j] == fst_words(all[j]),
        decreases sets@.len() - i,
    {
        op_push(&mut op, &sets[i]);
        i += 1;
    }
    let ghost lists = op_lists(op);
    assert forall|j: int| 0 <= j < lists.len() implies ascending(#[trigger] lists[j]) by {
        assert(is_words_fst(all[j]));
    }
    let union = op_union(op);
    proof {
        assert forall|word: Seq<u8>| #[trigger] union_words(union).contains(word) <==> in_some_fst(
            all,
            word,
        ) by {
            if in_some_list(lists, word) {
                let j = choose|j: int| 0 <= j < lists.len() && (#[trigger] lists[j]).contains(word);
                assert(fst_words(all[j]).contains(word));
            }
            if in_some_fst(all, word) {
                let j = choose|j: int|
                    0 <= j < all.len() && fst_words(#[trigger] all[j]).contains(word);
                assert(lists[j].contains(word));
            }
        }
    }
    let mut build = set_builder();
    set_builder_extend(&mut build, union);
    set_builder_into_bytes(build)
}

/// Merges values of the main table. Fsts of words become the fst of all their words, the fields
/// of the documents must be the same everywhere, and sets of document ids are united.
pub fn main_merge(key: &[u8], values: &[Cow<[u8]>]) -> (merged: Result<Vec<u8>, MergeError>)
    requires
        main_mergeable(key@, all_bytes(values@)),
    ensures
        main_merged(key@, all_bytes(values@), merged),
{
    proof {
        lemma_main_keys_differ();
    }
    if bytes_equal(key, WORDS_FST_KEY.as_bytes()) {
        Ok(unite_fsts(values))
    } else if bytes_equal(key, FIELDS_IDS_MAP_KEY.as_bytes()) {
        if !all_values_same(values) {
            return Err(MergeError::FieldsIdsMapMismatch);
        }
        assert(all_bytes(values@)[0] == values@[0]@);
        Ok(to_bytes(value_bytes(&values[0])))
    } else if bytes_equal(key, DOCUMENTS_IDS_KEY.as_bytes()) {
        word_docids_merge(&[], values)
    } else {
        Err(MergeError::UnknownKey { key: to_bytes(key) })
    }
}

/// The union of the first values, once the next one is added to it.
proof fn lemma_union_step(sets: Seq<Option<Set<u32>>>, n: int)
    requires
        0 <= n < sets.len(),
        sets[n] is Some,
    ensures
        union_of(sets.take(n + 1)) == union_of(sets.take(n)).union(sets[n]->0),
{
    let before = sets.take(n);
    let after = sets.take(n + 1);
    assert forall|id: u32| in_some_set(after, id) <==> in_some_set(before, id) || sets[n]->0.contains(
        id,
    ) by {
        if in_some_set(after, id) {
            let i = choose|i: int|
                0 <= i < after.len() && (#[trigger] after[i])->0.contains(id) && after[i] is Some;
            if i < n {
                assert(before[i]->0.contains(id));
            }
        }
        if in_some_set(before, id) {
            let i = choose|i: int|
                0 <= i < before.len() && (#[trigger] before[i])->0.contains(id) && before[i] is Some;
            assert(after[i]->0.contains(id));
        }
        if sets[n]->0.contains(id) {
            assert(after[n]->0.contains(id));
        }
    }
    assert(union_of(after) =~= union_of(before).union(sets[n]->0));
}

/// The ids that each of a list of bitmaps holds.
spec fn held_sets(bitmaps: Seq<RoaringBitmap>) -> Seq<Option<Set<u32>>> {
    bitmaps.map_values(|bitmap: RoaringBitmap| Some(bitmap_ids(bitmap)))
}

/// The union of bitmaps.
fn unite(bitmaps: Vec<RoaringBitmap>) -> (all: RoaringBitmap)
    requires
        bitmaps@.len() > 0,
        forall|i: int| 0 <= i < bitmaps@.len() ==> bitmap_sound(#[trigger] bitmaps@[i]),
    ensures
        bitmap_sound(all),
        bitmap_ids(all) == union_of(held_sets(bitmaps@)),
{
    let ghost sets = held_sets(bitmaps@);
    let mut all = RoaringBitmap::new();
    let mut i: usize = 0;
    assert(union_of(sets.take(0)) =~= Set::<u32>::empty());
    while i < bitmaps.len()
        invariant
            i <= bitmaps@.len(),
            sets == held_sets(bitmaps@),
            forall|j: int| 0 <= j < bitmaps@.len() ==> bitmap_sound(#[trigger] bitmaps@[j]),
            bitmap_sound(all),
            bitmap_ids(all) == union_of(sets.take(i as int)),
        decreases bitmaps@.len() - i,
    {
        #[allow(deprecated)]
        all.union_with(&bitmaps[i]);
        proof {
            assert(sets[i as int] == Some(bitmap_ids(bitmaps@[i as int])));
            lemma_union_step(sets, i as int);
        }
        i += 1;
    }
    assert(sets.take(i as int) =~= sets);
    all
}

/// Merges sets of document ids in the roaring form, whatever their key.
pub fn word_docids_merge(_key: &[u8], values: &[Cow<[u8]>]) -> (merged: Result<Vec<u8>, MergeError>)
    requires
        roaring_mergeable(all_bytes(values@)),
    ensures
        roaring_merged(all_bytes(values@), merged),
{
    let ghost all = all_bytes(values@);
    let ghost sets = roaring_sets(all);
    let mut bitmaps: Vec<RoaringBitmap> = Vec::new();
    let mut i: usize = 0;
    while i < values.len()
        invariant
            i <= values@.len(),
            all == all_bytes(values@),
            sets == roaring_sets(all),
            bitmaps@.len() == i,
            forall|j: int| 0 <= j < i ==> (#[trigger] sets[j]) is Some,
            forall|j: int|
                0 <= j < i ==> sets[j] == Some(bitmap_ids(#[trigger] bitmaps@[j])) && bitmap_sound(
                    bitmaps@[j],
                ) == roaring_intact(all[j]),
        decreases values@.len() - i,
    {
        assert(all[i as int] == values@[i as int]@);
        match deserialize_bitmap(value_bytes(&values[i])) {
            Ok(bitmap) => {
                assert(sets[i as int] == Some(bitmap_ids(bitmap)));
                bitmaps.push(bitmap);
            },
            Err(reason) => {
                assert(first_without(sets, i as int));
                return Err(MergeError::InvalidDocids { reason });
            },
        }
        i += 1;
    }
    assert(all_hold(sets));
    assert(held_sets(bitmaps@) =~= sets);
    Ok(serialize_bitmap(&unite(bitmaps)))
}

/// Merging word positions is an error: a document is written by one indexer only.
pub fn docid_word_positions_merge(key: &[u8], _values: &[Cow<[u8]>]) -> (merged: Result<
    Vec<u8>,
    MergeError,
>)
    ensures
        merged matches Err(MergeError::DocidWordPositions { key: doubled }) && doubled@ == key@,
{
    Err(MergeError::DocidWordPositions { key: to_bytes(key) })
}

/// Merges sets of document ids in the conditional form, whatever their key.
pub fn words_pairs_proximities_docids_merge(_key: &[u8], values: &[Cow<[u8]>]) -> (merged: Result<
    Vec<u8>,
    MergeError,
>)
    requires
        cbo_mergeable(all_bytes(values@)),
    ensures
        cbo_merged(all_bytes(values@), merged),
{
    let ghost all = all_bytes(values@);
    let ghost sets = cbo_sets(all);
    let mut bitmaps: Vec<RoaringBitmap> = Vec::new();
    let mut i: usize = 0;
    while i < values.len()
        invariant
            i <= values@.len(),
            all == all_bytes(values@),
            sets == cbo_sets(all),
            bitmaps@.len() == i,
            forall|j: int| 0 <= j < i ==> (#[trigger] sets[j]) is Some,
            forall|j: int|
                0 <= j < i ==> sets[j] == Some(bitmap_ids(#[trigger] bitmaps@[j])) && (cbo_intact(
                    all[j],
                ) ==> bitmap_sound(bitmaps@[j])),
        decreases values@.len() - i,
    {
        assert(all[i as int] == values@[i as int]@);
        match CboRoaringBitmapCodec::deserialize_from(value_bytes(&values[i])) {
            Ok(bitmap) => {
                assert(sets[i as int] == Some(bitmap_ids(bitmap)));
                bitmaps.push(bitmap);
            },
            Err(reason) => {
                assert(first_without(sets, i as int));
                return Err(MergeError::InvalidDocids { reason });
            },
        }
        i += 1;
    }
    assert(all_hold(sets));
    assert(held_sets(bitmaps@) =~= sets);
    let head = unite(bitmaps);
    let mut bytes: Vec<u8> = Vec::new();
    CboRoaringBitmapCodec::serialize_into(&head, &mut bytes);
    assert(bytes@ =~= cbo_bytes(bitmap_ids(head)));
    Ok(bytes)
}

/// Merging documents is an error: a document is written by one indexer only.
pub fn documents_merge(key: &[u8], _values: &[Cow<[u8]>]) -> (merged: Result<Vec<u8>, MergeError>)
    ensures
        merged matches Err(MergeError::Documents { key: doubled }) && doubled@ == key@,
{
    Err(MergeError::Documents { key: to_bytes(key) })
}

/// The table whose values are merged.
#[derive(Clone, Copy, PartialEq, Eq, Structural, Debug)]
pub enum Table {
    Main,
    WordDocids,
    DocidWordPositions,
    WordsPairsProximitiesDocids,
    Documents,
}

/// Whether values of a table can be merged under a key.
pub open spec fn mergeable(table: Table, key: Seq<u8>, values: Seq<Seq<u8>>) -> bool {
    match table {
        Table::Main => main_mergeable(key, values),
        Table::WordDocids => roaring_mergeable(values),
        Table::WordsPairsProximitiesDocids => cbo_mergeable(values),
        Table::DocidWordPositions | Table::Documents => true,
    }
}

/// What merging values of a table gives.
pub open spec fn merged_in(
    table: Table,
    key: Seq<u8>,
    values: Seq<Seq<u8>>,
    merged: Result<Vec<u8>, MergeError>,
) -> bool {
    match table {
        Table::Main => main_merged(key, values, merged),
        Table::WordDocids => roaring_merged(values, merged),
        Table::WordsPairsProximitiesDocids => cbo_merged(values, merged),
        Table::DocidWordPositions => {
            &&& merged matches Err(MergeError::DocidWordPositions { key: doubled })
            &&& doubled@ == key
        },
        Table::Documents => {
            &&& merged matches Err(MergeError::Documents { key: doubled })
            &&& doubled@ == key
        },
    }
}

/// Whether sets in the roaring form can be merged.
fn is_roaring_mergeable(values: &[Cow<[u8]>]) -> (mergeable: bool)
    ensures
        mergeable == roaring_mergeable(all_bytes(values@)),
{
    let ghost all = all_bytes(values@);
    let ghost sets = roaring_sets(all);
    let mut sound = true;
    let mut i: usize = 0;
    while i < values.len()
        invariant
            i <= values@.len(),
            all == all_bytes(values@),
            sets == roaring_sets(all),
            forall|j: int| 0 <= j < i ==> (#[trigger] sets[j]) is Some,
            sound == forall|j: int| 0 <= j < i ==> roaring_intact(#[trigger] all[j]),
        decreases values@.len() - i,
    {
        assert(all[i as int] == values@[i as int]@);
        match read_is_sound(value_bytes(&values[i])) {
            Some(intact) => {
                sound = sound && intact;
            },
            None => {
                assert(sets[i as int] is None);
                return true;
            },
        }
        i += 1;
    }
    assert(all_hold(sets));
    values.len() > 0 && sound
}

/// Whether sets in the conditional form can be merged.
fn is_cbo_mergeable(values: &[Cow<[u8]>]) -> (mergeable: bool)
    ensures
        mergeable == cbo_mergeable(all_bytes(values@)),
{
    let ghost all = all_bytes(values@);
    let ghost sets = cbo_sets(all);
    let mut sound = true;
    let mut i: usize = 0;
    while i < values.len()
        invariant
            i <= values@.len(),
            all == all_bytes(values@),
            sets == cbo_sets(all),
            forall|j: int| 0 <= j < i ==> (#[trigger] sets[j]) is Some,
            sound == forall|j: int| 0 <= j < i ==> cbo_intact(#[trigger] all[j]),
        decreases values@.len() - i,
    {
        assert(all[i as int] == values@[i as int]@);
        match cbo_read_is_sound(value_bytes(&values[i])) {
            Some(intact) => {
                sound = sound && intact;
            },
            None => {
                assert(sets[i as int] is None);
                return true;
            },
        }
        i += 1;
    }
    assert(all_hold(sets));
    values.len() > 0 && sound
}

/// Merges values of a table that may be damaged, or gives `None` where they are. The fsts of the
/// main table are not merged here: that bytes are an fst shows only in how they were made, see
/// `merge_words_fsts`.
pub fn checked_merge(table: Table, key: &[u8], values: &[Cow<[u8]>]) -> (merged: Option<
    Result<Vec<u8>, MergeError>,
>)
    ensures
        match merged {
            Some(merged) => {
                &&& mergeable(table, key@, all_bytes(values@))
                &&& merged_in(table, key@, all_bytes(values@), merged)
            },
            None => {
                ||| table is Main && key@ == WORDS_FST_KEY.spec_bytes()
                ||| !mergeable(table, key@, all_bytes(values@))
            },
        },
{
    proof {
        lemma_main_keys_differ();
    }
    match table {
        Table::Main => {
            if bytes_equal(key, WORDS_FST_KEY.as_bytes()) {
                None
            } else if bytes_equal(key, FIELDS_IDS_MAP_KEY.as_bytes()) {
                if values.len() == 0 {
                    None
                } else {
                    Some(main_merge(key, values))
                }
            } else if bytes_equal(key, DOCUMENTS_IDS_KEY.as_bytes()) {
                if !is_roaring_mergeable(values) {
                    None
                } else {
                    Some(main_merge(key, values))
                }
            } else {
                Some(main_merge(key, values))
            }
        },
        Table::WordDocids => {
            if !is_roaring_mergeable(values) {
                None
            } else {
                Some(word_docids_merge(key, values))
            }
        },
        Table::DocidWordPositions => Some(docid_word_positions_merge(key, values)),
        Table::WordsPairsProximitiesDocids => {
            if !is_cbo_mergeable(values) {
                None
            } else {
                Some(words_pairs_proximities_docids_merge(key, values))
            }
        },
        Table::Documents => Some(documents_merge(key, values)),
    }
}

/// Merges the words of several indexers, as the main table does under its key of the words fst.
pub fn merge_words_fsts(fsts: &Vec<WordsFst>) -> (merged: Vec<u8>)
    ensures
        is_union(fst_words(merged@), fsts@.map_values(|words_fst: WordsFst| words_fst@)),
        is_words_fst(merged@),
{
    let ghost all = fsts@.map_values(|words_fst: WordsFst| words_fst@);
    let mut values: Vec<Cow<[u8]>> = Vec::new();
    let mut i: usize = 0;
    while i < fsts.len()
        invariant
            i <= fsts@.len(),
            values@.len() == i,
            all == fsts@.map_values(|words_fst: WordsFst| words_fst@),
            forall|j: int|
                0 <= j < i ==> (#[trigger] values@[j])@ == all[j] && is_words_fst(values@[j]@),
        decreases fsts@.len() - i,
    {
        values.push(Cow::Borrowed(fsts[i].as_bytes()));
        i += 1;
    }
    assert(all_bytes(values@) =~= all);
    main_merge(WORDS_FST_KEY.as_bytes(), values.as_slice()).unwrap()
}

/// Whether two merges came out the same: with the same bytes, or with errors that say the same.
pub open spec fn same_outcome(
    a: Result<Vec<u8>, MergeError>,
    b: Result<Vec<u8>, MergeError>,
) -> bool {
    match (a, b) {
        (Ok(x), Ok(y)) => x@ == y@,
        (Err(x), Err(y)) => merge_message(x) == merge_message(y),
        _ => false,
    }
}

/// The values alone decide what merging them gives: the documents ids of the main table are merged
/// as those of a word are, and the key has no influence.
pub proof fn lemma_docids_merges_agree(
    key: Seq<u8>,
    values: Seq<Seq<u8>>,
    in_main: Result<Vec<u8>, MergeError>,
    of_word: Result<Vec<u8>, MergeError>,
    of_other: Result<Vec<u8>, MergeError>,
)
    requires
        main_merged(DOCUMENTS_IDS_KEY.spec_bytes(), values, in_main),
        merged_in(Table::WordDocids, key, values, of_word),
        roaring_merged(values, of_other),
    ensures
        main_mergeable(DOCUMENTS_IDS_KEY.spec_bytes(), values) == mergeable(
            Table::WordDocids,
            key,
            values,
        ),
        same_outcome(in_main, of_word),
        same_outcome(of_word, of_other),
{
    lemma_main_keys_differ();
    let sets = roaring_sets(values);
    assert forall|i: int, j: int| #[trigger]
        first_without(sets, i) && #[trigger] first_without(sets, j) implies i == j by {
        if i < j {
            assert(sets[i] is Some);
        } else if j < i {
            assert(sets[j] is Some);
        }
    }
}

/// The values alone decide what merging pairs of words gives.
pub proof fn lemma_cbo_merges_agree(
    values: Seq<Seq<u8>>,
    a: Result<Vec<u8>, MergeError>,
    b: Result<Vec<u8>, MergeError>,
)
    requires
        cbo_merged(values, a),
        cbo_merged(values, b),
    ensures
        same_outcome(a, b),
{
    let sets = cbo_sets(values);
    assert forall|i: int, j: int| #[trigger]
        first_without(sets, i) && #[trigger] first_without(sets, j) implies i == j by {
        if i < j {
            assert(sets[i] is Some);
        } else if j < i {
            assert(sets[j] is Some);
        }
    }
}

/// Merging what was merged before is merging all at once, and the order of the values does not
/// show: so it does not matter how a sorter groups the chunks that it merges. This is of sets in
/// the roaring form.
pub proof fn lemma_roaring_merge_of_merges(
    a: Seq<Seq<u8>>,
    b: Seq<Seq<u8>>,
    merged_a: Vec<u8>,
    merged_b: Vec<u8>,
)
    requires
        roaring_merged(a, Ok(merged_a)),
        roaring_merged(b, Ok(merged_b)),
    ensures
        all_hold(roaring_sets(a + b)),
        all_hold(roaring_sets(seq![merged_a@, merged_b@])),
        roaring_mergeable(seq![merged_a@, merged_b@]),
        union_of(roaring_sets(seq![merged_a@, merged_b@])) == union_of(roaring_sets(a + b)),
        union_of(roaring_sets(b + a)) == union_of(roaring_sets(a + b)),
        union_of(roaring_sets(a + a)) == union_of(roaring_sets(a)),
{
    let x = roaring_sets(a);
    let y = roaring_sets(b);
    assert(roaring_sets(a + b) =~= x + y);
    assert(roaring_sets(b + a) =~= y + x);
    assert(roaring_sets(a + a) =~= x + x);
    assert(roaring_sets(seq![merged_a@, merged_b@]) =~= seq![Some(union_of(x)), Some(union_of(y))]);
    lemma_union_of_unions(x, y);
}

/// Merging what was merged before is merging all at once, and the order of the values does not
/// show. This is of sets in the conditional form.
pub proof fn lemma_cbo_merge_of_merges(
    a: Seq<Seq<u8>>,
    b: Seq<Seq<u8>>,
    merged_a: Vec<u8>,
    merged_b: Vec<u8>,
)
    requires
        cbo_merged(a, Ok(merged_a)),
        cbo_merged(b, Ok(merged_b)),
    ensures
        all_hold(cbo_sets(a + b)),
        all_hold(cbo_sets(seq![merged_a@, merged_b@])),
        cbo_mergeable(seq![merged_a@, merged_b@]),
        union_of(cbo_sets(seq![merged_a@, merged_b@])) == union_of(cbo_sets(a + b)),
        union_of(cbo_sets(b + a)) == union_of(cbo_sets(a + b)),
        union_of(cbo_sets(a + a)) == union_of(cbo_sets(a)),
{
    let x = cbo_sets(a);
    let y = cbo_sets(b);
    assert(cbo_sets(a + b) =~= x + y);
    assert(cbo_sets(b + a) =~= y + x);
    assert(cbo_sets(a + a) =~= x + x);
    assert(cbo_sets(seq![merged_a@, merged_b@]) =~= seq![Some(union_of(x)), Some(union_of(y))]);
    lemma_union_of_unions(x, y);
}

/// Merging fsts of words that were merged before is merging all of them at once.
pub proof fn lemma_fst_merge_of_merges(
    a: Seq<Seq<u8>>,
    b: Seq<Seq<u8>>,
    merged_a: Seq<u8>,
    merged_b: Seq<u8>,
    merged: Seq<u8>,
)
    requires
        is_union(fst_words(merged_a), a),
        is_union(fst_words(merged_b), b),
        is_union(fst_words(merged), seq![merged_a, merged_b]),
    ensures
        is_union(fst_words(merged), a + b),
{
    let pair = seq![merged_a, merged_b];
    assert forall|word: Seq<u8>| #[trigger] fst_words(merged).contains(word) <==> in_some_fst(
        a + b,
        word,
    ) by {
        assert(fst_words(merged).contains(word) <==> in_some_fst(pair, word));
        assert(fst_words(merged_a).contains(word) <==> in_some_fst(a, word));
        assert(fst_words(merged_b).contains(word) <==> in_some_fst(b, word));
        if in_some_fst(a, word) {
            let i = choose|i: int| 0 <= i < a.len() && fst_words(#[trigger] a[i]).contains(word);
            assert((a + b)[i] == a[i]);
            assert(fst_words(pair[0]).contains(word));
        }
        if in_some_fst(b, word) {
            let i = choose|i: int| 0 <= i < b.len() && fst_words(#[trigger] b[i]).contains(word);
            assert((a + b)[a.len() + i] == b[i]);
            assert(fst_words(pair[1]).contains(word));
        }
        if in_some_fst(a + b, word) {
            let i = choose|i: int|
                0 <= i < (a + b).len() && fst_words(#[trigger] (a + b)[i]).contains(word);
            if i < a.len() {
                assert(a[i] == (a + b)[i]);
            } else {
                assert(b[i - a.len()] == (a + b)[i]);
            }
        }
    }
}

proof fn lemma_union_of_unions(a: Seq<Option<Set<u32>>>, b: Seq<Option<Set<u32>>>)
    ensures
        union_of(seq![Some(union_of(a)), Some(union_of(b))]) == union_of(a + b),
        union_of(b + a) == union_of(a + b),
        union_of(a + a) == union_of(a),
{
    let pair = seq![Some(union_of(a)), Some(union_of(b))];
    assert forall|id: u32| in_some_set(a + b, id) <==> in_some_set(a, id) || in_some_set(b, id) by {
        lemma_in_concat(a, b, id);
    }
    assert forall|id: u32| in_some_set(b + a, id) <==> in_some_set(a, id) || in_some_set(b, id) by {
        lemma_in_concat(b, a, id);
    }
    assert forall|id: u32| in_some_set(a + a, id) <==> in_some_set(a, id) by {
        lemma_in_concat(a, a, id);
    }
    assert forall|id: u32| in_some_set(pair, id) <==> in_some_set(a, id) || in_some_set(b, id) by {
        if in_some_set(a, id) {
            assert(pair[0]->0.contains(id));
        }
        if in_some_set(b, id) {
            assert(pair[1]->0.contains(id));
        }
    }
    assert(union_of(pair) =~= union_of(a + b));
    assert(union_of(b + a) =~= union_of(a + b));
    assert(union_of(a + a) =~= union_of(a));
}

/// An id is in one of two lists of sets where it is in one of the two.
proof fn lemma_in_concat(a: Seq<Option<Set<u32>>>, b: Seq<Option<Set<u32>>>, id: u32)
    ensures
        in_some_set(a + b, id) <==> in_some_set(a, id) || in_some_set(b, id),
{
    if in_some_set(a, id) {
        let i = choose|i: int|
            0 <= i < a.len() && (#[trigger] a[i])->0.contains(id) && a[i] is Some;
        assert((a + b)[i] == a[i]);
    }
    if in_some_set(b, id) {
        let i = choose|i: int|
            0 <= i < b.len() && (#[trigger] b[i])->0.contains(id) && b[i] is Some;
        assert((a + b)[a.len() + i] == b[i]);
    }
    if in_some_set(a + b, id) {
        let i = choose|i: int|
            0 <= i < (a + b).len() && (#[trigger] (a + b)[i])->0.contains(id) && (a + b)[i] is Some;
        if i < a.len() {
            assert(a[i] == (a + b)[i]);
        } else {
            assert(b[i - a.len()] == (a + b)[i]);
        }
    }
}

/// What merging sets in the roaring form says: it succeeds where every value is read, and then the
/// merged value is read as the ids that some value has.
pub proof fn lemma_roaring_merged_says(
    values: Seq<Seq<u8>>,
    merged: Result<Vec<u8>, MergeError>,
    id: u32,
)
    requires
        roaring_merged(values, merged),
    ensures
        merged is Ok <==> forall|i: int|
            0 <= i < values.len() ==> roaring_ids(#[trigger] values[i]) is Some,
        merged is Ok ==> {
            &&& roaring_ids(merged->Ok_0@) is Some
            &&& roaring_ids(merged->Ok_0@)->0.contains(id) <==> exists|i: int|
                0 <= i < values.len() && roaring_ids(#[trigger] values[i])->0.contains(id)
        },
{
    let sets = roaring_sets(values);
    match merged {
        Ok(bytes) => {
            assert forall|i: int| 0 <= i < values.len() implies roaring_ids(
                #[trigger] values[i],
            ) is Some by {
                assert(sets[i] is Some);
            }
            if in_some_set(sets, id) {
                let i = choose|i: int|
                    0 <= i < sets.len() && (#[trigger] sets[i])->0.contains(id) && sets[i] is Some;
                assert(roaring_ids(values[i])->0.contains(id));
            }
            if exists|i: int|
                0 <= i < values.len() && roaring_ids(#[trigger] values[i])->0.contains(id) {
                let i = choose|i: int|
                    0 <= i < values.len() && roaring_ids(#[trigger] values[i])->0.contains(id);
                assert(sets[i]->0.contains(id));
            }
        },
        Err(_) => {
            let i = choose|i: int| #[trigger] first_without(sets, i);
            assert(roaring_ids(values[i]) is None);
        },
    }
}

/// What merging sets in the conditional form says: it succeeds where every value is read, and then
/// the merged value is read as the ids that some value has.
pub proof fn lemma_cbo_merged_says(
    values: Seq<Seq<u8>>,
    merged: Result<Vec<u8>, MergeError>,
    id: u32,
)
    requires
        cbo_merged(values, merged),
    ensures
        merged is Ok <==> forall|i: int|
            0 <= i < values.len() ==> cbo_ids(#[trigger] values[i]) is Some,
        merged is Ok ==> {
            &&& cbo_ids(merged->Ok_0@) is Some
            &&& cbo_ids(merged->Ok_0@)->0.contains(id) <==> exists|i: int|
                0 <= i < values.len() && cbo_ids(#[trigger] values[i])->0.contains(id)
        },
{
    let sets = cbo_sets(values);
    match merged {
        Ok(bytes) => {
            assert forall|i: int| 0 <= i < values.len() implies cbo_ids(
                #[trigger] values[i],
            ) is Some by {
                assert(sets[i] is Some);
            }
            if in_some_set(sets, id) {
                let i = choose|i: int|
                    0 <= i < sets.len() && (#[trigger] sets[i])->0.contains(id) && sets[i] is Some;
                assert(cbo_ids(values[i])->0.contains(id));
            }
            if exists|i: int|
                0 <= i < values.len() && cbo_ids(#[trigger] values[i])->0.contains(id) {
                let i = choose|i: int|
                    0 <= i < values.len() && cbo_ids(#[trigger] values[i])->0.contains(id);
                assert(sets[i]->0.contains(id));
            }
        },
        Err(_) => {
            let i = choose|i: int| #[trigger] first_without(sets, i);
            assert(cbo_ids(values[i]) is None);
        },
    }
}

/// What merging in the main table says: fsts become the fst of the words that one of them has, the
/// fields must be the same everywhere and stay as they are, documents ids are merged as sets in the
/// roaring form, and there is no other key.
pub proof fn lemma_main_merged_says(
    key: Seq<u8>,
    values: Seq<Seq<u8>>,
    merged: Result<Vec<u8>, MergeError>,
    word: Seq<u8>,
)
    requires
        main_merged(key, values, merged),
    ensures
        key == "words-fst".spec_bytes() ==> {
            &&& merged is Ok
            &&& ascending(fst_words(merged->Ok_0@))
            &&& fst_words(merged->Ok_0@).contains(word) <==> exists|i: int|
                0 <= i < values.len() && fst_words(#[trigger] values[i]).contains(word)
        },
        key == "fields-ids-map".spec_bytes() ==> {
            &&& merged is Ok <==> forall|i: int, j: int|
                0 <= i < values.len() && 0 <= j < values.len() ==> #[trigger] values[i]
                    == #[trigger] values[j]
            &&& merged is Ok && values.len() > 0 ==> merged->Ok_0@ == values[0]
        },
        key == "documents-ids".spec_bytes() ==> roaring_merged(values, merged),
        key != "words-fst".spec_bytes() && key != "fields-ids-map".spec_bytes() && key
            != "documents-ids".spec_bytes() ==> merged is Err,
{
    lemma_main_keys_differ();
    if key == FIELDS_IDS_MAP_KEY.spec_bytes() && merged is Err {
        let i = choose|i: int| 0 <= i < values.len() && #[trigger] values[i] != values[0];
        assert(values[i] != values[0]);
    }
}

/// Which values can be merged: there must be one, and then those of which one is not read, and
/// those that are all read as sound sets. Word positions, documents and unknown keys are always
/// refused.
pub proof fn lemma_mergeable_says(table: Table, key: Seq<u8>, values: Seq<Seq<u8>>, i: int)
    requires
        0 <= i < values.len(),
    ensures
        roaring_ids(values[i]) is None ==> mergeable(Table::WordDocids, key, values),
        cbo_ids(values[i]) is None ==> mergeable(Table::WordsPairsProximitiesDocids, key, values),
        (forall|j: int| 0 <= j < values.len() ==> roaring_intact(#[trigger] values[j]))
            ==> mergeable(Table::WordDocids, key, values),
        (forall|j: int| 0 <= j < values.len() ==> cbo_intact(#[trigger] values[j])) ==> mergeable(
            Table::WordsPairsProximitiesDocids,
            key,
            values,
        ),
        mergeable(Table::DocidWordPositions, key, values),
        mergeable(Table::Documents, key, values),
        mergeable(Table::Main, "fields-ids-map".spec_bytes(), values),
        mergeable(Table::WordDocids, key, values) ==> mergeable(
            Table::Main,
            "documents-ids".spec_bytes(),
            values,
        ),
{
    lemma_main_keys_differ();
    if roaring_ids(values[i]) is None {
        assert(roaring_sets(values)[i] is None);
    }
    if cbo_ids(values[i]) is None {
        assert(cbo_sets(values)[i] is None);
    }
}

} // verus!
