//! Sets of document ids, held in roaring bitmaps.
use roaring::RoaringBitmap;
use vstd::prelude::*;

verus! {

/// `roaring::RoaringBitmap`, a compressed set of `u32`.
#[verifier::external_type_specification]
#[verifier::external_body]
pub struct ExRoaringBitmap(RoaringBitmap);

/// The ids that a bitmap yields when it is iterated over.
pub uninterp spec fn bitmap_ids(bitmap: RoaringBitmap) -> Set<u32>;

/// Whether a bitmap is one that insertions and unions make: its containers are in the order of
/// their keys, none is empty, the values of each are in order, and each is stored in the form
/// that its length calls for. A bitmap read from bytes that no bitmap wrote may be otherwise.
pub uninterp spec fn bitmap_sound(bitmap: RoaringBitmap) -> bool;

/// The bytes that `RoaringBitmap::serialize_into` writes for a sound bitmap of these ids.
pub uninterp spec fn roaring_bytes(ids: Set<u32>) -> Seq<u8>;

/// What `RoaringBitmap::deserialize_from` reads from these bytes: the ids of the bitmap and whether
/// it is sound, or the text of the error where it fails.
pub uninterp spec fn roaring_read(bytes: Seq<u8>) -> Result<(Set<u32>, bool), Seq<char>>;

/// A bitmap of these ids was read, sound or not.
pub open spec fn was_read(ids: Set<u32>, sound: bool) -> Result<(Set<u32>, bool), Seq<char>> {
    Ok((ids, sound))
}

/// No bitmap was read, for this reason.
pub open spec fn was_refused(reason: Seq<char>) -> Result<(Set<u32>, bool), Seq<char>> {
    Err(reason)
}

/// The ids of the bitmap that is read from these bytes, `None` where there is none.
pub open spec fn roaring_ids(bytes: Seq<u8>) -> Option<Set<u32>> {
    match roaring_read(bytes) {
        Ok(read) => Some(read.0),
        Err(_) => None,
    }
}

/// Why no bitmap is read from these bytes.
pub open spec fn roaring_refusal(bytes: Seq<u8>) -> Seq<char> {
    roaring_read(bytes)->Err_0
}

/// Whether these bytes are refused, or a sound bitmap is read from them. Reading checks lengths,
/// not order: from other bytes it leaves a bitmap on which a union is not a union of ids.
pub open spec fn roaring_intact(bytes: Seq<u8>) -> bool {
    match roaring_read(bytes) {
        Ok(read) => read.1,
        Err(_) => true,
    }
}

/// Whether a list holds the ids of a set, each once, in ascending order.
pub open spec fn lists(list: Seq<u32>, ids: Set<u32>) -> bool {
    &&& forall|i: int, j: int| 0 <= i < j < list.len() ==> list[i] < list[j]
    &&& list.to_set() == ids
}

/// The ids of a set in ascending order.
pub open spec fn ascending_ids(ids: Set<u32>) -> Seq<u32> {
    choose|list: Seq<u32>| lists(list, ids)
}

/// `RoaringBitmap::new`: the bitmap without ids.
pub assume_specification[ RoaringBitmap::new ]() -> (bitmap: RoaringBitmap)
    ensures
        bitmap_sound(bitmap),
        bitmap_ids(bitmap) == Set::<u32>::empty(),
;

/// `RoaringBitmap::insert`: adds one id, and says whether it was absent.
pub assume_specification[ RoaringBitmap::insert ](bitmap: &mut RoaringBitmap, value: u32) -> (added:
    bool)
    requires
        bitmap_sound(*old(bitmap)),
    ensures
        bitmap_sound(*final(bitmap)),
        bitmap_ids(*final(bitmap)) == bitmap_ids(*old(bitmap)).insert(value),
        added == !bitmap_ids(*old(bitmap)).contains(value),
;

/// `RoaringBitmap::union_with`: adds the ids of another bitmap.
#[allow(deprecated)]
pub assume_specification[ RoaringBitmap::union_with ](
    bitmap: &mut RoaringBitmap,
    other: &RoaringBitmap,
)
    requires
        bitmap_sound(*old(bitmap)),
        bitmap_sound(*other),
    ensures
        bitmap_sound(*final(bitmap)),
        bitmap_ids(*final(bitmap)) == bitmap_ids(*old(bitmap)).union(bitmap_ids(*other)),
;

/// `RoaringBitmap::len`: the number of ids.
pub assume_specification[ RoaringBitmap::len ](bitmap: &RoaringBitmap) -> (len: u64)
    requires
        bitmap_sound(*bitmap),
    ensures
        len == bitmap_ids(*bitmap).len(),
;

/// `RoaringBitmap::from_iter`: the bitmap of the listed ids, in any order and however often each
/// is listed.
#[verifier::external_body]
pub(crate) fn bitmap_from_ids(ids: &Vec<u32>) -> (bitmap: RoaringBitmap)
    ensures
        bitmap_sound(bitmap),
        bitmap_ids(bitmap) == ids@.to_set(),
{
    ids.iter().cloned().collect()
}

/// `RoaringBitmap::iter`: the ids of the bitmap, which a sound bitmap gives in ascending order.
#[verifier::external_body]
pub(crate) fn bitmap_to_ids(bitmap: &RoaringBitmap) -> (ids: Vec<u32>)
    ensures
        ids@.to_set() == bitmap_ids(*bitmap),
        bitmap_sound(*bitmap) ==> lists(ids@, bitmap_ids(*bitmap)),
{
    bitmap.iter().collect()
}

/// `RoaringBitmap::serialize_into`, into memory, where no write fails: bytes that hold sixteen
/// bytes of header at least, unless there is no id, and two bytes at least for each of the first
/// 4096 ids, and from which `deserialize_from` reads a sound bitmap of the ids back.
#[verifier::external_body]
pub(crate) fn serialize_bitmap(bitmap: &RoaringBitmap) -> (bytes: Vec<u8>)
    requires
        bitmap_sound(*bitmap),
    ensures
        bytes@ == roaring_bytes(bitmap_ids(*bitmap)),
        roaring_read(bytes@) == was_read(bitmap_ids(*bitmap), true),
        0 < bitmap_ids(*bitmap).len() <= 4096 ==> bytes@.len() >= 16 + 2 * bitmap_ids(
            *bitmap,
        ).len(),
        bitmap_ids(*bitmap).len() > 4096 ==> bytes@.len() >= 16 + 2 * 4096,
{
    let mut bytes = Vec::with_capacity(bitmap.serialized_size());
    bitmap.serialize_into(&mut bytes).unwrap();
    bytes
}

/// `RoaringBitmap::deserialize_from`, from memory: the bitmap that the bytes hold, or the text of
/// the error where the call fails.
#[verifier::external_body]
pub(crate) fn deserialize_bitmap(bytes: &[u8]) -> (read: Result<RoaringBitmap, String>)
    ensures
        match read {
            Ok(bitmap) => roaring_read(bytes@) == was_read(bitmap_ids(bitmap), bitmap_sound(bitmap)),
            Err(reason) => roaring_read(bytes@) == was_refused(reason@),
        },
{
    RoaringBitmap::deserialize_from(bytes).map_err(|error| error.to_string())
}

/// `RoaringBitmap::eq`: a bitmap is equal to a sound one where it is sound too and has the same
/// ids. It compares the containers, and a set has one list of containers that is sound.
#[verifier::external_body]
pub(crate) fn bitmap_equals(bitmap: &RoaringBitmap, sound: &RoaringBitmap) -> (equal: bool)
    requires
        bitmap_sound(*sound),
    ensures
        equal == (bitmap_sound(*bitmap) && bitmap_ids(*bitmap) == bitmap_ids(*sound)),
{
    bitmap == sound
}

/// There are finitely many ids, so every set of them is finite.
pub proof fn lemma_ids_finite(ids: Set<u32>)
    ensures
        ids.finite(),
{
    let all = vstd::set_lib::set_int_range(0, 0x1_0000_0000);
    let id_of = |n: int| n as u32;
    vstd::set_lib::lemma_int_range(0, 0x1_0000_0000);
    all.lemma_map_finite(id_of);
    assert forall|id: u32| ids.contains(id) implies all.map(id_of).contains(id) by {
        assert(all.contains(id as int));
        assert(id_of(id as int) == id);
    }
    vstd::set_lib::lemma_set_subset_finite(all.map(id_of), ids);
}

/// A set has one list of its ids in ascending order.
pub proof fn lemma_lists_unique(a: Seq<u32>, b: Seq<u32>, ids: Set<u32>)
    requires
        lists(a, ids),
        lists(b, ids),
    ensures
        a == b,
    decreases a.len(),
{
    if a.len() == 0 {
        if b.len() > 0 {
            assert(ids.contains(b[0]));
            assert(a.contains(b[0]));
        }
        assert(a =~= b);
    } else {
        let last = a.last();
        assert(ids.contains(last));
        assert(b.contains(last));
        let top = b.last();
        assert(ids.contains(top));
        assert(a.contains(top));
        assert(last == top);
        let rest = ids.remove(last);
        assert forall|list: Seq<u32>| lists(list, ids) && list.len() > 0 && list.last() == last implies lists(
            list.drop_last(),
            rest,
        ) by {
            let short = list.drop_last();
            assert forall|id: u32| short.to_set().contains(id) <==> rest.contains(id) by {
                if short.contains(id) {
                    let i = choose|i: int| 0 <= i < short.len() && short[i] == id;
                    assert(list[i] == id);
                }
                if rest.contains(id) {
                    assert(list.contains(id));
                    let i = choose|i: int| 0 <= i < list.len() && list[i] == id;
                    assert(short[i] == id);
                }
            }
            assert(short.to_set() =~= rest);
        }
        lemma_lists_unique(a.drop_last(), b.drop_last(), rest);
        assert(a =~= a.drop_last().push(last));
        assert(b =~= b.drop_last().push(last));
    }
}

/// What lists the ids of a set in ascending order is its ascending list.
pub proof fn lemma_ascending_ids(list: Seq<u32>, ids: Set<u32>)
    requires
        lists(list, ids),
    ensures
        ascending_ids(ids) == list,
{
    lemma_lists_unique(ascending_ids(ids), list, ids);
}

/// A list that is strictly ascending holds as many ids as the set that it lists.
pub proof fn lemma_lists_len(list: Seq<u32>, ids: Set<u32>)
    requires
        lists(list, ids),
    ensures
        ids.finite(),
        ids.len() == list.len(),
{
    vstd::seq_lib::seq_to_set_is_finite(list);
    list.unique_seq_to_set();
}

/// Whether the bitmap that is read from bytes is sound, `None` where none is read.
pub fn read_is_sound(bytes: &[u8]) -> (sound: Option<bool>)
    ensures
        match sound {
            Some(sound) => roaring_ids(bytes@) is Some && sound == roaring_intact(bytes@),
            None => roaring_ids(bytes@) is None,
        },
{
    match deserialize_bitmap(bytes) {
        Err(_) => None,
        Ok(bitmap) => {
            let ids = bitmap_to_ids(&bitmap);
            let rebuilt = bitmap_from_ids(&ids);
            Some(bitmap_equals(&bitmap, &rebuilt))
        },
    }
}

} // verus!
