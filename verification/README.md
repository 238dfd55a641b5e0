# indexing

Indexes the records of CSV files into the sorted tables of a search engine: which documents hold
a word, which hold two words at some proximity, where the words of a document stand, and the
documents themselves.

`src/` is the verified library.

- `bytes`, `keys`, `codec`, `docids`: byte strings and their order, the keys of the tables, the
  byte forms of sets of document ids.
- `tokenizer`, `words_positions`, `proximity`: the words of a record, their positions, and the
  pairs of words that are close to each other.
- `document`, `fields_ids_map`: stored documents and the ids of their fields.
- `cache`, `tables`, `store`: the caches of an indexer and the entries that it writes.
- `index_csv`, `handed_out`: the records of a file, shared out among threads, and the entries that
  are handed out on the way.
- `words_fst`, `merge_function`, `merged`: how the values of several chunks become one, and what
  merging makes of what was written.
- `text`: texts for people to read.

`app/` puts the library on disk: it reads the files, sorts the entries in chunks and writes the
tables.
