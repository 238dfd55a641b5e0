//! A cache of document id sets, kept in the order in which its keys were last used.
use crate::docids::{bitmap_ids, bitmap_sound};
use linked_hash_map::LinkedHashMap;
use roaring::RoaringBitmap;
use vstd::prelude::*;

verus! {

/// The key of a cached set: the parts of the key under which a table holds the set.
pub type CacheKey = Vec<Vec<u8>>;

/// The parts of a key as byte strings.
pub open spec fn key_parts(key: Seq<Vec<u8>>) -> Seq<Seq<u8>> {
    key.map_values(|part: Vec<u8>| part@)
}

/// `linked_hash_map::LinkedHashMap`, a hash map that keeps its entries in a list.
#[verifier::external_type_specification]
#[verifier::external_body]
#[verifier::reject_recursive_types(K)]
#[verifier::reject_recursive_types(V)]
#[verifier::reject_recursive_types(S)]
pub struct ExLinkedHashMap<K, V, S>(LinkedHashMap<K, V, S>);

/// The entries of a linked hash map from the front of its list to the back.
pub uninterp spec fn map_entries(map: LinkedHashMap<CacheKey, RoaringBitmap>) -> Seq<
    (Seq<Seq<u8>>, RoaringBitmap),
>;

/// `LinkedHashMap::with_capacity`: a map without entries. The capacity is bounded so that the
/// hash table behind it is addressable.
#[verifier::external_body]
pub(crate) fn map_with_capacity(capacity: usize) -> (map: LinkedHashMap<CacheKey, RoaringBitmap>)
    requires
        capacity <= usize::MAX / 128,
    ensures
        map_entries(map) == Seq::<(Seq<Seq<u8>>, RoaringBitmap)>::empty(),
{
    LinkedHashMap::with_capacity(capacity)
}

/// `LinkedHashMap::get_refresh`: a reference to the set under a key, whose entry moves to the
/// back, or `None` where no entry has the key, and then nothing moves.
#[verifier::external_body]
pub(crate) fn map_get_refresh<'a>(
    map: &'a mut LinkedHashMap<CacheKey, RoaringBitmap>,
    key: &CacheKey,
) -> (found: Option<&'a mut RoaringBitmap>)
    ensures
        match found {
            Some(value) => exists|i: int|
                {
                    &&& 0 <= i < map_entries(*old(map)).len()
                    &&& #[trigger] map_entries(*old(map))[i] == (key_parts(key@), *value)
                    &&& map_entries(*final(map)) == map_entries(*old(map)).remove(i).push(
                        (key_parts(key@), *final(value)),
                    )
                },
            None => {
                &&& forall|i: int|
                    0 <= i < map_entries(*old(map)).len() ==> #[trigger] map_entries(*old(map))[i].0
                        != key_parts(key@)
                &&& map_entries(*final(map)) == map_entries(*old(map))
            },
        },
{
    map.get_refresh(key)
}

/// `LinkedHashMap::insert`, of a key that the map does not hold: the entry becomes the last one.
#[verifier::external_body]
pub(crate) fn map_insert(
    map: &mut LinkedHashMap<CacheKey, RoaringBitmap>,
    key: CacheKey,
    value: RoaringBitmap,
)
    requires
        forall|i: int|
            0 <= i < map_entries(*old(map)).len() ==> #[trigger] map_entries(*old(map))[i].0
                != key_parts(key@),
    ensures
        map_entries(*final(map)) == map_entries(*old(map)).push((key_parts(key@), value)),
{
    map.insert(key, value);
}

/// `LinkedHashMap::pop_front`: takes the first entry out, or gives `None` where there is none.
#[verifier::external_body]
pub(crate) fn map_pop_front(map: &mut LinkedHashMap<CacheKey, RoaringBitmap>) -> (first: Option<
    (CacheKey, RoaringBitmap),
>)
    ensures
        match first {
            Some(entry) => {
                &&& map_entries(*old(map)).len() > 0
                &&& map_entries(*old(map))[0] == (key_parts(entry.0@), entry.1)
                &&& map_entries(*final(map)) == map_entries(*old(map)).drop_first()
            },
            None => {
                &&& map_entries(*old(map)).len() == 0
                &&& map_entries(*final(map)) == map_entries(*old(map))
            },
        },
{
    map.pop_front()
}

/// `LinkedHashMap::len`: the number of entries.
#[verifier::external_body]
pub(crate) fn map_len(map: &LinkedHashMap<CacheKey, RoaringBitmap>) -> (len: usize)
    ensures
        len == map_entries(*map).len(),
{
    map.len()
}

/// Cached sets as keys and ids, the least recently used key first.
pub type Cached = Seq<(Seq<Seq<u8>>, Set<u32>)>;

/// Whether a key is cached.
pub open spec fn has_key(cached: Cached, key: Seq<Seq<u8>>) -> bool {
    exists|i: int| 0 <= i < cached.len() && (#[trigger] cached[i]).0 == key
}

/// The place of a cached key.
pub open spec fn place_of(cached: Cached, key: Seq<Seq<u8>>) -> int {
    choose|i: int| 0 <= i < cached.len() && (#[trigger] cached[i]).0 == key
}

/// Whether no key is cached twice.
pub open spec fn keys_distinct(cached: Cached) -> bool {
    forall|i: int, j: int|
        0 <= i < j < cached.len() ==> (#[trigger] cached[i]).0 != (#[trigger] cached[j]).0
}

/// The ids cached under a key, none where the key is not cached.
pub open spec fn ids_under(cached: Cached, key: Seq<Seq<u8>>) -> Set<u32> {
    if has_key(cached, key) {
        cached[place_of(cached, key)].1
    } else {
        Set::empty()
    }
}

/// What is cached once an id is added under a key: the key is the most recently used one, and the
/// other keys keep their order.
pub open spec fn recorded(cached: Cached, key: Seq<Seq<u8>>, id: u32) -> Cached {
    let others = if has_key(cached, key) {
        cached.remove(place_of(cached, key))
    } else {
        cached
    };
    others.push((key, ids_under(cached, key).insert(id)))
}

/// A cache of document id sets in the order of their last use.
pub struct DocidsCache {
    map: LinkedHashMap<CacheKey, RoaringBitmap>,
}

impl View for DocidsCache {
    type V = Cached;

    closed spec fn view(&self) -> Cached {
        map_entries(self.map).map_values(
            |entry: (Seq<Seq<u8>>, RoaringBitmap)| (entry.0, bitmap_ids(entry.1)),
        )
    }
}

impl DocidsCache {
    /// Whether the cached sets are sound bitmaps under distinct keys.
    pub closed spec fn wf(&self) -> bool {
        &&& forall|i: int|
            0 <= i < map_entries(self.map).len() ==> bitmap_sound(
                (#[trigger] map_entries(self.map)[i]).1,
            )
        &&& keys_distinct(self@)
    }

    /// A well-formed cache holds each key once.
    pub proof fn lemma_wf(&self)
        requires
            self.wf(),
        ensures
            keys_distinct(self@),
    {
    }

    /// An empty cache with room for a number of sets.
    pub fn with_capacity(capacity: usize) -> (cache: DocidsCache)
        requires
            capacity <= usize::MAX / 128,
        ensures
            cache.wf(),
            cache@ == Cached::empty(),
    {
        let cache = DocidsCache { map: map_with_capacity(capacity) };
        assert(cache@ =~= Cached::empty());
        cache
    }

    /// The number of cached sets.
    pub fn len(&self) -> (len: usize)
        ensures
            len == self@.len(),
    {
        map_len(&self.map)
    }

    /// Adds an id under a key, which becomes the most recently used one, and says whether the key
    /// was cached before.
    pub fn record(&mut self, key: CacheKey, id: u32) -> (known: bool)
        requires
            old(self).wf(),
        ensures
            final(self).wf(),
            known == has_key(old(self)@, key_parts(key@)),
            final(self)@ == recorded(old(self)@, key_parts(key@), id),
    {
        let ghost before = map_entries(self.map);
        let ghost cached = self@;
        let ghost parts = key_parts(key@);
        let known = match map_get_refresh(&mut self.map, &key) {
            Some(ids) => {
                proof {
                    assert forall|i: int|
                        0 <= i < before.len() && (#[trigger] before[i]).0 == parts implies i
                        == place_of(cached, parts) && has_key(cached, parts) by {
                        assert(cached[i].0 == parts);
                    }
                }
                ids.insert(id);
                true
            },
            None => false,
        };
        if known {
            proof {
                lemma_record(cached, parts, id);
                assert(self@ =~= recorded(cached, parts, id));
            }
        } else {
            let mut ids = RoaringBitmap::new();
            ids.insert(id);
            proof {
                if has_key(cached, parts) {
                    let i = place_of(cached, parts);
                    assert(before[i].0 == parts);
                }
            }
            map_insert(&mut self.map, key, ids);
            proof {
                lemma_record(cached, parts, id);
                assert(self@ =~= recorded(cached, parts, id));
            }
        }
        known
    }

    /// Takes the least recently used key out, with its set.
    pub fn pop_front(&mut self) -> (first: Option<(CacheKey, RoaringBitmap)>)
        requires
            old(self).wf(),
        ensures
            final(self).wf(),
            match first {
                Some(entry) => {
                    &&& old(self)@.len() > 0
                    &&& bitmap_sound(entry.1)
                    &&& old(self)@[0] == (key_parts(entry.0@), bitmap_ids(entry.1))
                    &&& final(self)@ == old(self)@.drop_first()
                },
                None => {
                    &&& old(self)@.len() == 0
                    &&& final(self)@ == old(self)@
                },
            },
    {
        let ghost before = map_entries(self.map);
        let ghost cached = self@;
        let first = map_pop_front(&mut self.map);
        proof {
            if first is Some {
                assert(self@ =~= cached.drop_first());
                assert forall|i: int| 0 <= i < map_entries(self.map).len() implies bitmap_sound(
                    (#[trigger] map_entries(self.map)[i]).1,
                ) by {
                    assert(map_entries(self.map)[i] == before[i + 1]);
                }
                assert(keys_distinct(self@)) by {
                    assert forall|i: int, j: int| 0 <= i < j < self@.len() implies (
                    #[trigger] self@[i]).0 != (#[trigger] self@[j]).0 by {
                        assert(self@[i] == cached[i + 1]);
                        assert(self@[j] == cached[j + 1]);
                    }
                }
            }
        }
        first
    }
}

/// Adding an id under a key leaves each key cached once, makes the key the most recently used
/// one, adds the id to what is cached under it, and leaves what is cached under any other key.
pub proof fn lemma_record(cached: Cached, key: Seq<Seq<u8>>, id: u32)
    requires
        keys_distinct(cached),
    ensures
        keys_distinct(recorded(cached, key, id)),
        recorded(cached, key, id).last().0 == key,
        ids_under(recorded(cached, key, id), key) == ids_under(cached, key).insert(id),
        forall|other: Seq<Seq<u8>>|
            other != key ==> #[trigger] ids_under(recorded(cached, key, id), other) == ids_under(
                cached,
                other,
            ),
{
    let after = recorded(cached, key, id);
    let at = place_of(cached, key);
    let known = has_key(cached, key);
    assert forall|i: int| 0 <= i < after.len() - 1 implies (#[trigger] after[i]) == (if known && i
        >= at {
        cached[i + 1]
    } else {
        cached[i]
    }) by {}
    assert forall|i: int| 0 <= i < after.len() - 1 implies (#[trigger] after[i]).0 != key by {
        if known {
            assert(cached[at].0 == key);
        } else {
            assert(!has_key(cached, key));
            assert(after[i] == cached[i]);
        }
    }
    assert(after[after.len() - 1].0 == key);
    assert(has_key(after, key));
    assert(place_of(after, key) == after.len() - 1);
    assert forall|other: Seq<Seq<u8>>| other != key implies #[trigger] ids_under(after, other)
        == ids_under(cached, other) by {
        if has_key(cached, other) {
            let i = place_of(cached, other);
            let j = if known && i > at {
                i - 1
            } else {
                i
            };
            assert(after[j] == cached[i]);
            assert(has_key(after, other));
            let k = place_of(after, other);
            assert(k < after.len() - 1);
        } else if has_key(after, other) {
            let k = place_of(after, other);
            let i = if known && k >= at {
                k + 1
            } else {
                k
            };
            assert(after[k] == cached[i]);
        }
    }
}

/// Adding an id under a key leaves the other keys in their order, with their sets, before the key.
pub proof fn lemma_record_order(cached: Cached, key: Seq<Seq<u8>>, id: u32, i: int, j: int)
    requires
        keys_distinct(cached),
        0 <= i < j < cached.len(),
        cached[i].0 != key,
        cached[j].0 != key,
    ensures
        recorded(cached, key, id).len() == if has_key(cached, key) {
            cached.len()
        } else {
            cached.len() + 1
        },
        recorded(cached, key, id).last().0 == key,
        exists|k: int, l: int|
            #![trigger recorded(cached, key, id)[k], recorded(cached, key, id)[l]]
            {
                &&& 0 <= k < l < recorded(cached, key, id).len() - 1
                &&& recorded(cached, key, id)[k] == cached[i]
                &&& recorded(cached, key, id)[l] == cached[j]
            },
{
    let after = recorded(cached, key, id);
    let known = has_key(cached, key);
    let at = place_of(cached, key);
    let k = if known && i > at {
        i - 1
    } else {
        i
    };
    let l = if known && j > at {
        j - 1
    } else {
        j
    };
    if known {
        assert(cached[at].0 == key);
    }
    assert(after[k] == cached[i]);
    assert(after[l] == cached[j]);
}

} // verus!
