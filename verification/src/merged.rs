//! What merging makes of the entries that a store writes.
use crate::index_csv::{
    is_found, lemma_documents_ids_alike, lemma_rows, lists_share, records_indexed, Share,
};
use crate::keys::valid_key;
use crate::merge_function::{
    all_hold, cbo_sets, in_some_set, mergeable, merged_in, roaring_sets, union_of, MergeError,
    Table,
};
use crate::store::{docids_of, fields_written, finished, has_docid, StoreView, TablesView};
use crate::tables::{
    all_intact, entries_listing, inhabited, is_listed, keys_of, lemma_listed_concat, table_ids,
    table_intact, DocidsTable, Entries, Listing,
};
use vstd::prelude::*;

verus! {

/// The values that entries hold under a key, in the order in which they are written.
pub open spec fn values_under(entries: Entries, key: Seq<u8>) -> Seq<Seq<u8>>
    decreases entries.len(),
{
    if entries.len() == 0 {
        Seq::empty()
    } else if entries.last().0 == key {
        values_under(entries.drop_last(), key).push(entries.last().1)
    } else {
        values_under(entries.drop_last(), key)
    }
}

/// The table of document ids as one of all tables.
pub open spec fn merge_table(table: DocidsTable) -> Table {
    match table {
        DocidsTable::Words => Table::WordDocids,
        DocidsTable::Pairs => Table::WordsPairsProximitiesDocids,
    }
}

/// The set that each value of a table holds.
pub open spec fn table_sets(table: DocidsTable, values: Seq<Seq<u8>>) -> Seq<Option<Set<u32>>> {
    match table {
        DocidsTable::Words => roaring_sets(values),
        DocidsTable::Pairs => cbo_sets(values),
    }
}

/// The documents that entries list under a key.
pub open spec fn listed_ids(table: DocidsTable, entries: Entries, key: Seq<u8>) -> Set<u32> {
    Set::new(|id: u32| is_listed(entries_listing(table, entries), key, id))
}

/// The values under a key are values of entries.
proof fn lemma_values_from_entries(entries: Entries, key: Seq<u8>, i: int) -> (at: int)
    requires
        0 <= i < values_under(entries, key).len(),
    ensures
        0 <= at < entries.len(),
        entries[at] == (key, values_under(entries, key)[i]),
    decreases entries.len(),
{
    let rest = entries.drop_last();
    if i < values_under(rest, key).len() {
        lemma_values_from_entries(rest, key, i)
    } else {
        entries.len() - 1
    }
}

/// The sets under a key hold what entries list under it.
proof fn lemma_sets_under(table: DocidsTable, entries: Entries, key: Seq<u8>, id: u32)
    ensures
        in_some_set(table_sets(table, values_under(entries, key)), id) <==> is_listed(
            entries_listing(table, entries),
            key,
            id,
        ),
    decreases entries.len(),
{
    let values = values_under(entries, key);
    let sets = table_sets(table, values);
    if entries.len() > 0 {
        let rest = entries.drop_last();
        let last = entries.last();
        let one: Listing = seq![(last.0, table_ids(table, last.1))];
        let before = table_sets(table, values_under(rest, key));
        lemma_sets_under(table, rest, key, id);
        assert(entries_listing(table, entries) =~= entries_listing(table, rest) + one);
        lemma_listed_concat(entries_listing(table, rest), one, key, id);
        assert(is_listed(one, key, id) <==> {
            &&& last.0 == key
            &&& table_ids(table, last.1) is Some
            &&& table_ids(table, last.1)->0.contains(id)
        }) by {
            assert(one[0] == (last.0, table_ids(table, last.1)));
        }
        if last.0 == key {
            assert(sets =~= before.push(table_ids(table, last.1)));
            if in_some_set(before, id) {
                let i = choose|i: int|
                    0 <= i < before.len() && (#[trigger] before[i])->0.contains(id)
                        && before[i] is Some;
                assert(sets[i] == before[i]);
            }
            if is_listed(one, key, id) {
                assert(sets[before.len() as int]->0.contains(id));
            }
            if in_some_set(sets, id) {
                let i = choose|i: int|
                    0 <= i < sets.len() && (#[trigger] sets[i])->0.contains(id) && sets[i] is Some;
                if i < before.len() {
                    assert(before[i] == sets[i]);
                }
            }
        }
    } else {
        assert(sets.len() == 0);
    }
}

/// Merging the values that a store writes under a key gives the documents that it lists there:
/// merging accepts the values, does not fail, and loses no document and adds none.
pub proof fn lemma_merged_docids(
    table: DocidsTable,
    entries: Entries,
    key: Seq<u8>,
    merged: Result<Vec<u8>, MergeError>,
)
    requires
        all_intact(table, entries),
        values_under(entries, key).len() > 0,
    ensures
        mergeable(merge_table(table), key, values_under(entries, key)),
        merged_in(merge_table(table), key, values_under(entries, key), merged) ==> {
            &&& merged is Ok
            &&& table_ids(table, merged->Ok_0@) == Some(listed_ids(table, entries, key))
        },
{
    let values = values_under(entries, key);
    let sets = table_sets(table, values);
    assert forall|i: int| 0 <= i < values.len() implies table_ids(
        table,
        #[trigger] values[i],
    ) is Some && table_intact(table, values[i]) by {
        let at = lemma_values_from_entries(entries, key, i);
        assert(entries[at].1 == values[i]);
    }
    assert(all_hold(sets)) by {
        assert forall|i: int| 0 <= i < sets.len() implies (#[trigger] sets[i]) is Some by {
            assert(table_ids(table, values[i]) is Some);
        }
    }
    assert forall|id: u32| union_of(sets).contains(id) <==> listed_ids(
        table,
        entries,
        key,
    ).contains(id) by {
        lemma_sets_under(table, entries, key, id);
    }
    assert(union_of(sets) =~= listed_ids(table, entries, key));
}

/// Whether two stores differ in nothing but the limits of their caches and how tables are written.
pub open spec fn same_but_limits(a: StoreView, b: StoreView) -> bool {
    b == (StoreView {
        word_docids_limit: b.word_docids_limit,
        words_pairs_proximities_docids_limit: b.words_pairs_proximities_docids_limit,
        options: b.options,
        ..a
    })
}

/// The limits of the caches and the memory of the sorters do not show in the tables: the entries
/// that are not merged are the same, and those that are have the same keys and, under each key, the
/// same documents once they are merged.
pub proof fn lemma_limits_do_not_show(
    a: StoreView,
    b: StoreView,
    names: Seq<Seq<char>>,
    records: Seq<Seq<Seq<char>>>,
    share: Share,
    x: TablesView,
    y: TablesView,
)
    requires
        same_but_limits(a, b),
        x == finished(records_indexed(fields_written(a, names), records, share)),
        y == finished(records_indexed(fields_written(b, names), records, share)),
        lists_share(x, a, records, share),
        lists_share(y, b, records, share),
        all_intact(DocidsTable::Words, x.word_docids),
        all_intact(DocidsTable::Words, y.word_docids),
        all_intact(DocidsTable::Pairs, x.words_pairs_proximities_docids),
        all_intact(DocidsTable::Pairs, y.words_pairs_proximities_docids),
    ensures
        x.main == y.main,
        x.documents == y.documents,
        x.docid_word_positions == y.docid_word_positions,
        forall|table: DocidsTable, key: Seq<u8>| #[trigger]
            keys_of(docids_of(x, table)).contains(key) <==> keys_of(docids_of(y, table)).contains(
                key,
            ),
        forall|table: DocidsTable, key: Seq<u8>|
            valid_key(key) ==> #[trigger] listed_ids(table, docids_of(x, table), key)
                == listed_ids(table, docids_of(y, table), key),
{
    let p = fields_written(a, names);
    let q = fields_written(b, names);
    lemma_rows(p, records, share);
    lemma_rows(q, records, share);
    lemma_documents_ids_alike(p, q, records, share);
    assert forall|table: DocidsTable, key: Seq<u8>, id: u32| valid_key(key) implies is_listed(
        entries_listing(table, docids_of(x, table)),
        key,
        id,
    ) == #[trigger] is_listed(entries_listing(table, docids_of(y, table)), key, id) by {
        assert(has_docid(a, table, key, id) == has_docid(b, table, key, id));
        assert(is_found(a, table, records, share, key, id) == is_found(
            b,
            table,
            records,
            share,
            key,
            id,
        ));
        assert(is_listed(entries_listing(table, docids_of(x, table)), key, id) <==> is_found(
            a,
            table,
            records,
            share,
            key,
            id,
        ));
    }
    assert forall|table: DocidsTable, key: Seq<u8>| valid_key(key) implies #[trigger] listed_ids(
        table,
        docids_of(x, table),
        key,
    ) == listed_ids(table, docids_of(y, table), key) by {
        assert(listed_ids(table, docids_of(x, table), key) =~= listed_ids(
            table,
            docids_of(y, table),
            key,
        ));
    }
    assert forall|table: DocidsTable, key: Seq<u8>| #[trigger]
        keys_of(docids_of(x, table)).contains(key) <==> keys_of(docids_of(y, table)).contains(
            key,
        ) by {
        let u = docids_of(x, table);
        let v = docids_of(y, table);
        assert(all_intact(table, u));
        assert(all_intact(table, v));
        lemma_key_listed(table, u, key);
        lemma_key_listed(table, v, key);
        if valid_key(key) {
            assert(listed_ids(table, u, key) == listed_ids(table, v, key));
        }
    }
}

/// A key is among those of intact entries where LMDB accepts it and a document is listed under it.
proof fn lemma_key_listed(table: DocidsTable, entries: Entries, key: Seq<u8>)
    requires
        all_intact(table, entries),
    ensures
        keys_of(entries).contains(key) <==> valid_key(key) && inhabited(
            listed_ids(table, entries, key),
        ),
{
    let listing = entries_listing(table, entries);
    let keys = keys_of(entries);
    if keys.contains(key) {
        let i = choose|i: int| 0 <= i < keys.len() && keys[i] == key;
        assert(entries[i].0 == key);
        let ids = table_ids(table, entries[i].1)->0;
        let id = choose|id: u32| #[trigger] ids.contains(id);
        assert(listing[i] == (key, table_ids(table, entries[i].1)));
        assert(is_listed(listing, key, id));
        assert(listed_ids(table, entries, key).contains(id));
    }
    if inhabited(listed_ids(table, entries, key)) {
        let id = choose|id: u32| #[trigger] listed_ids(table, entries, key).contains(id);
        assert(is_listed(listing, key, id));
        let i = choose|i: int|
            0 <= i < listing.len() && (#[trigger] listing[i]).0 == key && listing[i].1 is Some
                && listing[i].1->0.contains(id);
        assert(keys[i] == key);
    }
}

} // verus!
