//! The byte form of a stored document.
use crate::words_positions::field_texts;
use obkv::KvWriter;
use vstd::prelude::*;
use vstd::utf8::{encode_utf8, encode_utf8_decode_utf8};

verus! {

/// `obkv::KvWriter`, which writes values under keys of one byte.
#[verifier::external_type_specification]
#[verifier::external_body]
#[verifier::reject_recursive_types(W)]
pub struct ExKvWriter<W>(KvWriter<W>);

/// The keys and values that a writer accepted so far.
pub uninterp spec fn writer_entries(writer: KvWriter<Vec<u8>>) -> Seq<(u8, Seq<u8>)>;

/// An integer in groups of seven bits, the lowest first, the high bit set on all but the last.
pub open spec fn varint(n: nat) -> Seq<u8>
    decreases n,
{
    if n < 128 {
        seq![n as u8]
    } else {
        seq![(n % 128 + 128) as u8] + varint(n / 128)
    }
}

/// A value under its key: the key, the length of the value, the value.
pub open spec fn obkv_entry(entry: (u8, Seq<u8>)) -> Seq<u8> {
    seq![entry.0] + varint(entry.1.len()) + entry.1
}

/// Values under their keys, one after the other.
pub open spec fn obkv_bytes(entries: Seq<(u8, Seq<u8>)>) -> Seq<u8>
    decreases entries.len(),
{
    if entries.len() == 0 {
        Seq::empty()
    } else {
        obkv_bytes(entries.drop_last()) + obkv_entry(entries.last())
    }
}

/// `obkv::KvWriter::memory`: a writer without entries.
#[verifier::external_body]
pub(crate) fn kv_writer() -> (writer: KvWriter<Vec<u8>>)
    ensures
        writer_entries(writer) == Seq::<(u8, Seq<u8>)>::empty(),
{
    KvWriter::memory()
}

/// `obkv::KvWriter::insert`, into memory, where no write fails: accepts a key above the last one
/// with a value whose length fits in 32 bits, and refuses anything else.
#[verifier::external_body]
pub(crate) fn kv_writer_insert(writer: &mut KvWriter<Vec<u8>>, key: u8, value: &[u8]) -> (accepted:
    bool)
    ensures
        accepted == ((writer_entries(*old(writer)).len() > 0 ==> writer_entries(
            *old(writer),
        ).last().0 < key) && value@.len() <= u32::MAX),
        writer_entries(*final(writer)) == if accepted {
            writer_entries(*old(writer)).push((key, value@))
        } else {
            writer_entries(*old(writer))
        },
{
    writer.insert(key, value).is_ok()
}

/// `obkv::KvWriter::into_inner`, from memory, where no write fails: what the entries take.
#[verifier::external_body]
pub(crate) fn kv_writer_into_bytes(writer: KvWriter<Vec<u8>>) -> (bytes: Vec<u8>)
    ensures
        bytes@ == obkv_bytes(writer_entries(writer)),
{
    writer.into_inner().unwrap()
}

/// The fields of a record, each under its place.
pub open spec fn document_entries(record: Seq<Seq<char>>) -> Seq<(u8, Seq<u8>)> {
    Seq::new(record.len(), |i: int| (i as u8, encode_utf8(record[i])))
}

/// The bytes of a stored record.
pub open spec fn document_bytes(record: Seq<Seq<char>>) -> Seq<u8> {
    obkv_bytes(document_entries(record))
}

/// Whether a record can be stored: its fields are numbered by one byte, and the length of each
/// fits in 32 bits.
pub open spec fn storable(record: Seq<Seq<char>>) -> bool {
    &&& record.len() <= 256
    &&& forall|i: int|
        0 <= i < record.len() ==> encode_utf8(#[trigger] record[i]).len() <= u32::MAX
}

/// Whether a record can be stored.
pub fn is_storable(record: &Vec<String>) -> (is: bool)
    ensures
        is == storable(field_texts(record@)),
{
    let ghost texts = field_texts(record@);
    if record.len() > 256 {
        return false;
    }
    let mut i: usize = 0;
    while i < record.len()
        invariant
            i <= record@.len(),
            texts == field_texts(record@),
            forall|j: int| 0 <= j < i ==> encode_utf8(#[trigger] texts[j]).len() <= u32::MAX,
        decreases record@.len() - i,
    {
        assert(texts[i as int] == record@[i as int]@);
        if record[i].as_str().as_bytes().len() as u64 > 0xffff_ffff {
            return false;
        }
        i += 1;
    }
    true
}

/// Writes a record, each field under its place.
pub fn write_fields(record: &Vec<String>) -> (bytes: Vec<u8>)
    requires
        storable(field_texts(record@)),
    ensures
        bytes@ == document_bytes(field_texts(record@)),
{
    let ghost texts = field_texts(record@);
    let ghost all = document_entries(texts);
    let mut writer = kv_writer();
    let mut i: usize = 0;
    while i < record.len()
        invariant
            i <= record@.len(),
            texts == field_texts(record@),
            all == document_entries(texts),
            storable(texts),
            writer_entries(writer) == all.take(i as int),
        decreases record@.len() - i,
    {
        assert(texts[i as int] == record@[i as int]@);
        let accepted = kv_writer_insert(&mut writer, i as u8, record[i].as_str().as_bytes());
        assert(accepted);
        assert(writer_entries(writer) =~= all.take(i + 1));
        i += 1;
    }
    assert(all.take(i as int) =~= all);
    kv_writer_into_bytes(writer)
}

/// What starts with an integer tells the integer and what follows it.
proof fn lemma_varint_prefix(m: nat, n: nat, x: Seq<u8>, y: Seq<u8>)
    requires
        varint(m) + x == varint(n) + y,
    ensures
        m == n,
        x == y,
    decreases m,
{
    let a = varint(m) + x;
    let b = varint(n) + y;
    assert(a[0] == varint(m)[0]);
    assert(b[0] == varint(n)[0]);
    if m < 128 {
        assert(n < 128);
        assert(a.skip(1) =~= x);
        assert(b.skip(1) =~= y);
    } else {
        assert(n >= 128);
        assert(a.skip(1) =~= varint(m / 128) + x);
        assert(b.skip(1) =~= varint(n / 128) + y);
        lemma_varint_prefix(m / 128, n / 128, x, y);
    }
}

/// The first entry stands first.
proof fn lemma_obkv_first(entries: Seq<(u8, Seq<u8>)>)
    requires
        entries.len() > 0,
    ensures
        obkv_bytes(entries) == obkv_entry(entries[0]) + obkv_bytes(entries.drop_first()),
    decreases entries.len(),
{
    let rest = entries.drop_last();
    if rest.len() == 0 {
        assert(entries.drop_first() =~= Seq::<(u8, Seq<u8>)>::empty());
        assert(obkv_bytes(rest) =~= Seq::<u8>::empty());
        assert(obkv_bytes(entries) =~= obkv_entry(entries[0]) + obkv_bytes(entries.drop_first()));
    } else {
        lemma_obkv_first(rest);
        assert(rest.drop_first() =~= entries.drop_first().drop_last());
        assert(obkv_bytes(entries) =~= obkv_entry(entries[0]) + obkv_bytes(entries.drop_first()));
    }
}

/// Bytes tell the entries that they were written for.
pub proof fn lemma_obkv_injective(a: Seq<(u8, Seq<u8>)>, b: Seq<(u8, Seq<u8>)>)
    requires
        obkv_bytes(a) == obkv_bytes(b),
    ensures
        a == b,
    decreases a.len(),
{
    if a.len() > 0 {
        lemma_obkv_first(a);
    }
    if b.len() > 0 {
        lemma_obkv_first(b);
    }
    if a.len() == 0 || b.len() == 0 {
        assert(a =~= b);
    } else {
        let (k, v) = a[0];
        let (l, w) = b[0];
        let s = obkv_bytes(a.drop_first());
        let t = obkv_bytes(b.drop_first());
        let x = obkv_bytes(a);
        assert(x[0] == k);
        assert(x[0] == l);
        assert(x.skip(1) =~= varint(v.len()) + (v + s));
        assert(x.skip(1) =~= varint(w.len()) + (w + t));
        lemma_varint_prefix(v.len(), w.len(), v + s, w + t);
        assert(v =~= (v + s).take(v.len() as int));
        assert(w =~= (w + t).take(v.len() as int));
        assert(s =~= (v + s).skip(v.len() as int));
        assert(t =~= (w + t).skip(v.len() as int));
        lemma_obkv_injective(a.drop_first(), b.drop_first());
        assert(a =~= seq![a[0]] + a.drop_first());
        assert(b =~= seq![b[0]] + b.drop_first());
    }
}

/// Records that differ are stored as different bytes: nothing of a document is lost.
pub proof fn lemma_documents_differ(a: Seq<Seq<char>>, b: Seq<Seq<char>>)
    requires
        document_bytes(a) == document_bytes(b),
    ensures
        a == b,
{
    let x = document_entries(a);
    let y = document_entries(b);
    lemma_obkv_injective(x, y);
    assert(a.len() == x.len());
    assert(b.len() == y.len());
    assert forall|i: int| 0 <= i < a.len() implies a[i] == b[i] by {
        assert(x[i] == y[i]);
        encode_utf8_decode_utf8(a[i]);
        encode_utf8_decode_utf8(b[i]);
    }
    assert(a =~= b);
}

/// The number of bytes of the integer that bytes start with.
pub open spec fn varint_len(bytes: Seq<u8>) -> int
    decreases bytes.len(),
{
    if bytes.len() == 0 || bytes[0] < 128 {
        1
    } else {
        1 + varint_len(bytes.skip(1))
    }
}

/// The integer that bytes start with.
pub open spec fn varint_value(bytes: Seq<u8>) -> int
    decreases bytes.len(),
{
    if bytes.len() == 0 {
        0
    } else if bytes[0] < 128 {
        bytes[0] as int
    } else {
        bytes[0] - 128 + 128 * varint_value(bytes.skip(1))
    }
}

/// The value that bytes hold first under a key: each value comes after its key and its length.
pub open spec fn value_under(bytes: Seq<u8>, key: u8) -> Option<Seq<u8>>
    decreases bytes.len(),
{
    if bytes.len() == 0 {
        None
    } else {
        let rest = bytes.skip(1);
        let start = varint_len(rest);
        let end = start + varint_value(rest);
        if start < 0 || end < start || end > rest.len() {
            None
        } else if bytes[0] == key {
            Some(rest.subrange(start, end))
        } else {
            value_under(rest.skip(end), key)
        }
    }
}

/// An integer is read back.
proof fn lemma_varint_read(n: nat, tail: Seq<u8>)
    ensures
        varint_len(varint(n) + tail) == varint(n).len(),
        varint_value(varint(n) + tail) == n,
    decreases n,
{
    let bytes = varint(n) + tail;
    assert(bytes[0] == varint(n)[0]);
    if n >= 128 {
        lemma_varint_read(n / 128, tail);
        assert(bytes.skip(1) =~= varint(n / 128) + tail);
    }
}

/// Each field of a stored record, from a place on, is under its place, and nothing else is there.
proof fn lemma_fields_under(record: Seq<Seq<char>>, from: int, key: u8)
    requires
        record.len() <= 256,
        0 <= from <= record.len(),
        from <= key,
    ensures
        value_under(obkv_bytes(document_entries(record).skip(from)), key) == if key < record.len() {
            Some(encode_utf8(record[key as int]))
        } else {
            None
        },
    decreases record.len() - from,
{
    let entries = document_entries(record).skip(from);
    let bytes = obkv_bytes(entries);
    if from == record.len() {
        assert(entries.len() == 0);
        assert(bytes.len() == 0);
    } else {
        let value = encode_utf8(record[from]);
        let more = obkv_bytes(entries.drop_first());
        lemma_obkv_first(entries);
        assert(entries[0] == (from as u8, value));
        assert(entries.drop_first() =~= document_entries(record).skip(from + 1));
        let rest = bytes.skip(1);
        assert(bytes[0] == from as u8);
        assert(rest =~= varint(value.len()) + (value + more));
        lemma_varint_read(value.len(), value + more);
        let start = varint(value.len()).len() as int;
        let end = start + value.len();
        assert(rest.subrange(start, end) =~= value);
        assert(rest.skip(end) =~= more);
        if key != from {
            lemma_fields_under(record, from + 1, key);
        }
    }
}

/// What a stored record says: looked up under the place of a field there is the text of the field,
/// and under any other key there is nothing.
pub proof fn lemma_document_says(record: Seq<Seq<char>>, key: u8)
    requires
        record.len() <= 256,
    ensures
        value_under(document_bytes(record), key) == if key < record.len() {
            Some(encode_utf8(record[key as int]))
        } else {
            None
        },
{
    lemma_fields_under(record, 0, key);
    assert(document_entries(record).skip(0) =~= document_entries(record));
}

/// A record can be stored where it has up to 256 fields, none longer than 4294967295 bytes.
pub proof fn lemma_storable(record: Seq<Seq<char>>)
    ensures
        storable(record) <==> {
            &&& record.len() <= 256
            &&& forall|i: int|
                0 <= i < record.len() ==> encode_utf8(#[trigger] record[i]).len() <= 4294967295
        },
{
}

} // verus!
