//! The fields of the documents and their ids.
use crate::words_positions::field_texts;
use vstd::prelude::*;

verus! {

/// The number of ids that fields can have.
pub const MAX_FIELDS: usize = 256;

/// The JSON array of a list of strings, as `serde_json::to_vec` writes it.
pub uninterp spec fn json_strings(strings: Seq<Seq<char>>) -> Seq<u8>;

/// `serde_json::to_vec` of a list of strings, which it never refuses.
#[verifier::external_body]
pub(crate) fn strings_to_json(strings: &Vec<String>) -> (bytes: Vec<u8>)
    ensures
        bytes@ == json_strings(field_texts(strings@)),
{
    serde_json::to_vec(strings).unwrap()
}

/// The names of the fields. The id of a field is the place of its name.
pub struct FieldsIdsMap {
    names: Vec<String>,
}

impl View for FieldsIdsMap {
    type V = Seq<Seq<char>>;

    closed spec fn view(&self) -> Seq<Seq<char>> {
        field_texts(self.names@)
    }
}

impl FieldsIdsMap {
    /// Whether each name is there once, and each id fits in a byte.
    pub open spec fn wf(&self) -> bool {
        &&& self@.no_duplicates()
        &&& self@.len() <= MAX_FIELDS
    }

    /// No fields.
    pub fn new() -> (map: FieldsIdsMap)
        ensures
            map.wf(),
            map@ == Seq::<Seq<char>>::empty(),
    {
        let map = FieldsIdsMap { names: Vec::new() };
        assert(map@ =~= Seq::<Seq<char>>::empty());
        map
    }

    /// The id of a field, which is added where it is new, or `None` where no id is left for it.
    pub fn insert(&mut self, name: &str) -> (id: Option<u8>)
        requires
            old(self).wf(),
        ensures
            final(self).wf(),
            match id {
                Some(id) => {
                    &&& final(self)@ == with_field(old(self)@, name@)
                    &&& id < final(self)@.len()
                    &&& final(self)@[id as int] == name@
                },
                None => {
                    &&& !old(self)@.contains(name@)
                    &&& old(self)@.len() == MAX_FIELDS
                    &&& final(self)@ == old(self)@
                },
            },
    {
        let owned = name.to_owned();
        let mut i: usize = 0;
        while i < self.names.len()
            invariant
                i <= self.names@.len(),
                self.wf(),
                *self == *old(self),
                owned@ == name@,
                forall|j: int| 0 <= j < i ==> #[trigger] self@[j] != name@,
            decreases self.names@.len() - i,
        {
            assert(self@[i as int] == self.names@[i as int]@);
            if self.names[i] == owned {
                return Some(i as u8);
            }
            i += 1;
        }
        if self.names.len() == MAX_FIELDS {
            return None;
        }
        let ghost before = self@;
        let id = self.names.len() as u8;
        self.names.push(owned);
        assert(self@ =~= before.push(name@));
        Some(id)
    }

    /// The names as a JSON array, in the order of their ids.
    pub fn to_json(&self) -> (bytes: Vec<u8>)
        ensures
            bytes@ == json_strings(self@),
    {
        strings_to_json(&self.names)
    }
}

/// The fields once one is added: as before where it was there.
pub open spec fn with_field(names: Seq<Seq<char>>, name: Seq<char>) -> Seq<Seq<char>> {
    if names.contains(name) {
        names
    } else {
        names.push(name)
    }
}

/// The different names among headers, in the order in which they first occur.
pub open spec fn distinct_names(headers: Seq<Seq<char>>) -> Seq<Seq<char>>
    decreases headers.len(),
{
    if headers.len() == 0 {
        Seq::empty()
    } else {
        with_field(distinct_names(headers.drop_last()), headers.last())
    }
}

/// More headers have no fewer different names.
pub proof fn lemma_distinct_names_grow(headers: Seq<Seq<char>>, n: int)
    requires
        0 <= n <= headers.len(),
    ensures
        distinct_names(headers.take(n)).len() <= distinct_names(headers).len(),
    decreases headers.len(),
{
    if n == headers.len() {
        assert(headers.take(n) =~= headers);
    } else {
        let rest = headers.drop_last();
        lemma_distinct_names_grow(rest, n);
        assert(rest.take(n) =~= headers.take(n));
    }
}

/// The fields that headers name, or `None` where there are more of them than ids.
pub fn fields_of(headers: &Vec<String>) -> (map: Option<FieldsIdsMap>)
    ensures
        match map {
            Some(map) => map.wf() && map@ == distinct_names(field_texts(headers@)),
            None => distinct_names(field_texts(headers@)).len() > MAX_FIELDS,
        },
{
    let ghost texts = field_texts(headers@);
    let mut map = FieldsIdsMap::new();
    let mut i: usize = 0;
    while i < headers.len()
        invariant
            i <= headers@.len(),
            texts == field_texts(headers@),
            map.wf(),
            map@ == distinct_names(texts.take(i as int)),
        decreases headers@.len() - i,
    {
        proof {
            assert(texts.take(i + 1).drop_last() =~= texts.take(i as int));
            assert(texts.take(i + 1).last() == headers@[i as int]@);
        }
        match map.insert(headers[i].as_str()) {
            Some(_) => {},
            None => {
                proof {
                    lemma_distinct_names_grow(texts, i + 1);
                }
                return None;
            },
        }
        i += 1;
    }
    assert(texts.take(i as int) =~= texts);
    Some(map)
}

/// Each name among headers is there, once.
pub proof fn lemma_distinct_names(headers: Seq<Seq<char>>)
    ensures
        distinct_names(headers).no_duplicates(),
        forall|name: Seq<char>| #[trigger] distinct_names(headers).contains(name) <==> headers.contains(name),
    decreases headers.len(),
{
    let names = distinct_names(headers);
    if headers.len() > 0 {
        let rest = headers.drop_last();
        let before = distinct_names(rest);
        let last = headers.last();
        lemma_distinct_names(rest);
        assert forall|name: Seq<char>| #[trigger] names.contains(name) <==> headers.contains(
            name,
        ) by {
            assert(before.contains(name) <==> rest.contains(name));
            if headers.contains(name) && name != last {
                let i = choose|i: int| 0 <= i < headers.len() && headers[i] == name;
                assert(rest[i] == name);
            }
            if rest.contains(name) {
                let i = choose|i: int| 0 <= i < rest.len() && rest[i] == name;
                assert(headers[i] == name);
            }
            if before.contains(name) {
                let i = choose|i: int| 0 <= i < before.len() && before[i] == name;
                assert(names[i] == name);
            }
            if name == last {
                assert(headers[headers.len() - 1] == name);
                if !before.contains(last) {
                    assert(names[before.len() as int] == name);
                }
            }
        }
    }
}

/// Fields keep their ids when one is added, and a new one gets the next id.
pub proof fn lemma_fields_keep_ids(names: Seq<Seq<char>>, name: Seq<char>)
    ensures
        forall|i: int| 0 <= i < names.len() ==> #[trigger] with_field(names, name)[i] == names[i],
        names.contains(name) ==> with_field(names, name).len() == names.len(),
        !names.contains(name) ==> {
            &&& with_field(names, name).len() == names.len() + 1
            &&& with_field(names, name)[names.len() as int] == name
        },
{
}

/// The fields that the first headers name keep their ids when the others are added.
pub proof fn lemma_first_names(headers: Seq<Seq<char>>, n: int)
    requires
        0 <= n <= headers.len(),
    ensures
        distinct_names(headers.take(n)).len() <= distinct_names(headers).len(),
        forall|i: int|
            0 <= i < distinct_names(headers.take(n)).len() ==> #[trigger] distinct_names(
                headers,
            )[i] == distinct_names(headers.take(n))[i],
    decreases headers.len(),
{
    if n == headers.len() {
        assert(headers.take(n) =~= headers);
    } else {
        let rest = headers.drop_last();
        lemma_first_names(rest, n);
        assert(rest.take(n) =~= headers.take(n));
        lemma_fields_keep_ids(distinct_names(rest), headers.last());
    }
}

/// Headers that are all different are the names, in order: the id of a field is its column.
pub proof fn lemma_different_headers(headers: Seq<Seq<char>>)
    requires
        headers.no_duplicates(),
    ensures
        distinct_names(headers) == headers,
    decreases headers.len(),
{
    if headers.len() > 0 {
        let rest = headers.drop_last();
        let last = headers.last();
        assert(rest.no_duplicates());
        lemma_different_headers(rest);
        assert(!rest.contains(last)) by {
            if rest.contains(last) {
                let i = choose|i: int| 0 <= i < rest.len() && rest[i] == last;
                assert(headers[i] == headers[headers.len() - 1]);
            }
        }
        lemma_fields_keep_ids(rest, last);
        assert(distinct_names(headers) =~= headers);
    } else {
        assert(distinct_names(headers) =~= headers);
    }
}

/// Ids follow the headers: of two fields, the one with the smaller id occurs before the other
/// occurs for the first time.
pub proof fn lemma_ids_follow_headers(headers: Seq<Seq<char>>, a: int, b: int)
    requires
        0 <= a < b < distinct_names(headers).len(),
    ensures
        exists|m: int|
            {
                &&& 0 <= m < headers.len()
                &&& (#[trigger] headers[m]) == distinct_names(headers)[a]
                &&& forall|k: int|
                    0 <= k <= m ==> #[trigger] headers[k] != distinct_names(headers)[b]
            },
    decreases headers.len(),
{
    let names = distinct_names(headers);
    let rest = headers.drop_last();
    let before = distinct_names(rest);
    let last = headers.last();
    lemma_fields_keep_ids(before, last);
    lemma_distinct_names(rest);
    if b < before.len() {
        lemma_ids_follow_headers(rest, a, b);
        let m = choose|m: int|
            {
                &&& 0 <= m < rest.len()
                &&& (#[trigger] rest[m]) == before[a]
                &&& forall|k: int| 0 <= k <= m ==> #[trigger] rest[k] != before[b]
            };
        assert(headers[m] == names[a]);
        assert forall|k: int| 0 <= k <= m implies #[trigger] headers[k] != names[b] by {
            assert(rest[k] == headers[k]);
        }
    } else {
        assert(names[b] == last);
        assert(before.contains(before[a]));
        assert(rest.contains(before[a]));
        let m = choose|m: int| 0 <= m < rest.len() && rest[m] == before[a];
        assert(headers[m] == names[a]);
        assert forall|k: int| 0 <= k <= m implies #[trigger] headers[k] != names[b] by {
            assert(rest[k] == headers[k]);
            if rest[k] == last {
                assert(rest.contains(last));
                assert(before.contains(last));
            }
        }
    }
}

/// There are 256 ids.
pub proof fn lemma_max_fields()
    ensures
        MAX_FIELDS == 256,
{
}

} // verus!
