//! The byte forms in which the tables hold sets of integers.
use crate::bytes::{
    le_bytes, le_value, le_value_at, lemma_le_value_of_le_bytes, push_le_bytes,
};
use crate::docids::{
    ascending_ids, bitmap_ids, bitmap_sound, bitmap_to_ids, deserialize_bitmap,
    lemma_ascending_ids, lemma_ids_finite, lemma_lists_len, lists, read_is_sound, roaring_bytes,
    roaring_ids, roaring_intact, roaring_refusal, serialize_bitmap,
};
use roaring::RoaringBitmap;
use vstd::prelude::*;

verus! {

/// The little-endian bytes of each integer of a list, one after the other.
pub open spec fn le_words(list: Seq<u32>) -> Seq<u8>
    decreases list.len(),
{
    if list.len() == 0 {
        Seq::empty()
    } else {
        le_words(list.drop_last()) + le_bytes(list.last())
    }
}

/// The little-endian integers that bytes hold, leaving out an incomplete one at the end.
pub open spec fn words_in(bytes: Seq<u8>) -> Seq<u32> {
    Seq::new(
        bytes.len() / 4,
        |i: int| le_value(bytes[4 * i], bytes[4 * i + 1], bytes[4 * i + 2], bytes[4 * i + 3]),
    )
}

/// The plain form of a set: its integers in ascending order, four little-endian bytes each.
pub open spec fn bo_bytes(ids: Set<u32>) -> Seq<u8> {
    le_words(ascending_ids(ids))
}

/// The largest number of integers that the conditional form writes plainly. A roaring bitmap of
/// more takes more bytes than that many integers do, so the length of the bytes tells the form.
pub const THRESHOLD: usize = 7;

/// The conditional form of a set: the plain form where the set is small, the roaring form where
/// it is not.
pub open spec fn cbo_bytes(ids: Set<u32>) -> Seq<u8> {
    if ids.len() <= THRESHOLD {
        bo_bytes(ids)
    } else {
        roaring_bytes(ids)
    }
}

/// The set that bytes in the conditional form hold, `None` where they hold none.
pub open spec fn cbo_ids(bytes: Seq<u8>) -> Option<Set<u32>> {
    if bytes.len() <= 4 * THRESHOLD {
        Some(words_in(bytes).to_set())
    } else {
        roaring_ids(bytes)
    }
}

/// Whether bytes in the conditional form are plain, or intact as a roaring bitmap.
pub open spec fn cbo_intact(bytes: Seq<u8>) -> bool {
    bytes.len() <= 4 * THRESHOLD || roaring_intact(bytes)
}

/// Integers written in little-endian bytes are read back as they were.
pub proof fn lemma_words_in_le_words(list: Seq<u32>)
    ensures
        le_words(list).len() == 4 * list.len(),
        words_in(le_words(list)) == list,
    decreases list.len(),
{
    if list.len() > 0 {
        let rest = list.drop_last();
        lemma_words_in_le_words(rest);
        lemma_le_value_of_le_bytes(list.last());
        let bytes = le_words(list);
        let before = le_words(rest);
        assert forall|i: int| 0 <= i < list.len() implies words_in(bytes)[i] == list[i] by {
            if i < rest.len() {
                assert(words_in(before)[i] == rest[i]);
                assert(bytes[4 * i] == before[4 * i]);
                assert(bytes[4 * i + 1] == before[4 * i + 1]);
                assert(bytes[4 * i + 2] == before[4 * i + 2]);
                assert(bytes[4 * i + 3] == before[4 * i + 3]);
            } else {
                assert(bytes[4 * i] == le_bytes(list.last())[0]);
                assert(bytes[4 * i + 1] == le_bytes(list.last())[1]);
                assert(bytes[4 * i + 2] == le_bytes(list.last())[2]);
                assert(bytes[4 * i + 3] == le_bytes(list.last())[3]);
            }
        }
    }
    assert(words_in(le_words(list)) =~= list);
}

/// Appends the little-endian bytes of a list of integers.
fn extend_le_words(bytes: &mut Vec<u8>, list: &Vec<u32>)
    ensures
        final(bytes)@ == old(bytes)@ + le_words(list@),
{
    let ghost start = bytes@;
    let mut i: usize = 0;
    assert(bytes@ =~= start + le_words(list@.take(0)));
    while i < list.len()
        invariant
            i <= list@.len(),
            bytes@ == start + le_words(list@.take(i as int)),
        decreases list@.len() - i,
    {
        push_le_bytes(bytes, list[i]);
        assert(list@.take(i + 1).drop_last() =~= list@.take(i as int));
        assert(list@.take(i + 1).last() == list@[i as int]);
        assert(bytes@ =~= start + le_words(list@.take(i + 1)));
        i += 1;
    }
    assert(list@.take(i as int) =~= list@);
}

/// The plain form of a set of integers.
pub struct BoRoaringBitmapCodec;

impl BoRoaringBitmapCodec {
    /// The bytes of a set.
    pub fn bytes_encode(bitmap: &RoaringBitmap) -> (bytes: Vec<u8>)
        requires
            bitmap_sound(*bitmap),
        ensures
            bytes@ == bo_bytes(bitmap_ids(*bitmap)),
            words_in(bytes@).to_set() == bitmap_ids(*bitmap),
    {
        let ids = bitmap_to_ids(bitmap);
        let mut bytes: Vec<u8> = Vec::new();
        extend_le_words(&mut bytes, &ids);
        proof {
            lemma_ascending_ids(ids@, bitmap_ids(*bitmap));
            lemma_words_in_le_words(ids@);
            assert(bytes@ =~= le_words(ids@));
        }
        bytes
    }
}

/// The conditional form of a set of integers.
pub struct CboRoaringBitmapCodec;

impl CboRoaringBitmapCodec {
    /// Appends the bytes of a set, from which the set can be read back.
    pub fn serialize_into(bitmap: &RoaringBitmap, bytes: &mut Vec<u8>)
        requires
            bitmap_sound(*bitmap),
        ensures
            final(bytes)@ == old(bytes)@ + cbo_bytes(bitmap_ids(*bitmap)),
            cbo_ids(cbo_bytes(bitmap_ids(*bitmap))) == Some(bitmap_ids(*bitmap)),
            cbo_intact(cbo_bytes(bitmap_ids(*bitmap))),
    {
        if bitmap.len() <= THRESHOLD as u64 {
            let ids = bitmap_to_ids(bitmap);
            extend_le_words(bytes, &ids);
            proof {
                lemma_ascending_ids(ids@, bitmap_ids(*bitmap));
                lemma_lists_len(ids@, bitmap_ids(*bitmap));
                lemma_words_in_le_words(ids@);
            }
        } else {
            let mut written = serialize_bitmap(bitmap);
            proof {
                lemma_ids_finite(bitmap_ids(*bitmap));
            }
            bytes.append(&mut written);
        }
    }

    /// Reads the set that bytes hold, or says why they hold none.
    pub fn deserialize_from(bytes: &[u8]) -> (read: Result<RoaringBitmap, String>)
        ensures
            match read {
                Ok(bitmap) => {
                    &&& cbo_ids(bytes@) == Some(bitmap_ids(bitmap))
                    &&& cbo_intact(bytes@) ==> bitmap_sound(bitmap)
                },
                Err(reason) => {
                    &&& cbo_ids(bytes@) is None
                    &&& reason@ == roaring_refusal(bytes@)
                },
            },
    {
        if bytes.len() <= 4 * THRESHOLD {
            let mut bitmap = RoaringBitmap::new();
            let count = bytes.len() / 4;
            let mut i: usize = 0;
            assert(words_in(bytes@).take(0).to_set() =~= Set::<u32>::empty());
            while i < count
                invariant
                    i <= count,
                    count == bytes@.len() / 4,
                    bytes@.len() <= 4 * THRESHOLD,
                    bitmap_sound(bitmap),
                    bitmap_ids(bitmap) == words_in(bytes@).take(i as int).to_set(),
                decreases count - i,
            {
                let id = le_value_at(bytes, 4 * i);
                bitmap.insert(id);
                proof {
                    let words = words_in(bytes@);
                    assert(words[i as int] == id);
                    assert(words.take(i + 1) =~= words.take(i as int).push(id));
                    assert forall|x: u32|
                        words.take(i + 1).contains(x) == words.take(i as int).to_set().insert(
                            id,
                        ).contains(x) by {
                        if words.take(i as int).contains(x) {
                            let k = choose|k: int|
                                0 <= k < words.take(i as int).len() && words.take(i as int)[k] == x;
                            assert(words.take(i + 1)[k] == x);
                        }
                        if x == id {
                            assert(words.take(i + 1)[i as int] == x);
                        }
                    }
                    assert(words.take(i + 1).to_set() =~= words.take(i as int).to_set().insert(id));
                }
                i += 1;
            }
            assert(words_in(bytes@).take(i as int) =~= words_in(bytes@));
            Ok(bitmap)
        } else {
            deserialize_bitmap(bytes)
        }
    }
}

/// Whether bytes in the conditional form are plain, or intact as a roaring bitmap, `None` where no
/// set is read from them.
pub fn cbo_read_is_sound(bytes: &[u8]) -> (sound: Option<bool>)
    ensures
        match sound {
            Some(sound) => cbo_ids(bytes@) is Some && sound == cbo_intact(bytes@),
            None => cbo_ids(bytes@) is None,
        },
{
    if bytes.len() <= 4 * THRESHOLD {
        Some(true)
    } else {
        read_is_sound(bytes)
    }
}

/// The plain form of a set gives its integers back in ascending order.
pub proof fn lemma_bo_read_back(list: Seq<u32>, ids: Set<u32>)
    requires
        lists(list, ids),
    ensures
        words_in(bo_bytes(ids)) == list,
{
    lemma_ascending_ids(list, ids);
    lemma_words_in_le_words(list);
}

/// Four bytes are read as one integer, the least significant byte first.
pub proof fn lemma_words_in_says(bytes: Seq<u8>, i: int)
    requires
        0 <= 4 * i <= bytes.len() - 4,
    ensures
        words_in(bytes).len() == bytes.len() / 4,
        words_in(bytes)[i] == bytes[4 * i] + 256 * bytes[4 * i + 1] + 65536 * bytes[4 * i + 2]
            + 16777216 * bytes[4 * i + 3],
{
}

/// Up to seven ids are written plainly, four bytes each, in ascending order, and more of them as a
/// roaring bitmap. Up to 28 bytes are read plainly, and more of them as a roaring bitmap.
pub proof fn lemma_cbo_says(list: Seq<u32>, ids: Set<u32>, bytes: Seq<u8>)
    requires
        lists(list, ids),
    ensures
        list.len() <= 7 ==> {
            &&& cbo_bytes(ids).len() == 4 * list.len()
            &&& words_in(cbo_bytes(ids)) == list
        },
        list.len() > 7 ==> cbo_bytes(ids) == roaring_bytes(ids),
        bytes.len() <= 28 ==> cbo_ids(bytes) == Some(words_in(bytes).to_set()),
        bytes.len() > 28 ==> cbo_ids(bytes) == roaring_ids(bytes),
{
    lemma_lists_len(list, ids);
    lemma_ascending_ids(list, ids);
    lemma_words_in_le_words(list);
}

} // verus!
