//! The keys of the tables.
use crate::bytes::to_bytes;
use vstd::prelude::*;
use vstd::string::StringSliceAdditionalSpecFns;

verus! {

/// The key under which the main table holds the fst of all words.
pub const WORDS_FST_KEY: &'static str = "words-fst";

/// The key under which the main table holds the names of the fields.
pub const FIELDS_IDS_MAP_KEY: &'static str = "fields-ids-map";

/// The key under which the main table holds the ids of all documents.
pub const DOCUMENTS_IDS_KEY: &'static str = "documents-ids";

/// The length of the longest key that LMDB accepts.
pub const LMDB_MAX_KEY_LENGTH: usize = 511;

/// Whether LMDB accepts a key: it is not empty, and not too long.
pub open spec fn valid_key(key: Seq<u8>) -> bool {
    0 < key.len() <= LMDB_MAX_KEY_LENGTH
}

/// Whether LMDB accepts a key.
pub fn lmdb_key_valid_size(key: &[u8]) -> (valid: bool)
    ensures
        valid == valid_key(key@),
{
    !key.is_empty() && key.len() <= LMDB_MAX_KEY_LENGTH
}

/// The three keys of the main table are different byte strings.
pub proof fn lemma_main_keys_differ()
    ensures
        WORDS_FST_KEY.spec_bytes() != FIELDS_IDS_MAP_KEY.spec_bytes(),
        WORDS_FST_KEY.spec_bytes() != DOCUMENTS_IDS_KEY.spec_bytes(),
        FIELDS_IDS_MAP_KEY.spec_bytes() != DOCUMENTS_IDS_KEY.spec_bytes(),
{
    reveal_strlit("words-fst");
    reveal_strlit("fields-ids-map");
    reveal_strlit("documents-ids");
    assert(vstd::string::is_ascii(WORDS_FST_KEY));
    assert(vstd::string::is_ascii(FIELDS_IDS_MAP_KEY));
    assert(vstd::string::is_ascii(DOCUMENTS_IDS_KEY));
    assert(WORDS_FST_KEY.spec_bytes().len() == 9);
    assert(FIELDS_IDS_MAP_KEY.spec_bytes().len() == 14);
    assert(DOCUMENTS_IDS_KEY.spec_bytes().len() == 13);
}

/// LMDB accepts the keys of the main table.
pub proof fn lemma_main_keys_valid()
    ensures
        valid_key(WORDS_FST_KEY.spec_bytes()),
        valid_key(FIELDS_IDS_MAP_KEY.spec_bytes()),
        valid_key(DOCUMENTS_IDS_KEY.spec_bytes()),
{
    reveal_strlit("words-fst");
    reveal_strlit("fields-ids-map");
    reveal_strlit("documents-ids");
    assert(vstd::string::is_ascii(WORDS_FST_KEY));
    assert(vstd::string::is_ascii(FIELDS_IDS_MAP_KEY));
    assert(vstd::string::is_ascii(DOCUMENTS_IDS_KEY));
}

/// The bytes of a key of the main table.
pub fn main_key(key: &str) -> (bytes: Vec<u8>)
    ensures
        bytes@ == key.spec_bytes(),
{
    to_bytes(key.as_bytes())
}

/// LMDB accepts keys of 1 to 511 bytes.
pub proof fn lemma_valid_key(key: Seq<u8>)
    ensures
        valid_key(key) <==> 1 <= key.len() <= 511,
{
}

} // verus!
