//! Indexing of CSV records into the sorted tables of a search engine.
pub mod bytes;
pub mod cache;
pub mod codec;
pub mod docids;
pub mod document;
pub mod fields_ids_map;
pub mod found;
pub mod handed_out;
pub mod index_csv;
pub mod keys;
pub mod merge_function;
pub mod merged;
pub mod proximity;
pub mod store;
pub mod tables;
pub mod text;
pub mod tokenizer;
pub mod words_fst;
pub mod words_positions;
