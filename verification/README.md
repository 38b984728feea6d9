# pgtoken

Store text in PostgreSQL as token ids instead of UTF-8, in a library whose behaviour is stated in
contracts and proved with Verus.

- `src/` is the library. `value` encodes token ids into a self-describing value and decodes them
  again; `header`, `codec` and `tables` are its parts; `detok` turns ids back into text.
  `vocabulary`, `typmod`, `tokens`, `casts`, `mapping`, `training`, `registry` and `blob` are the
  rules of the `pgtoken.tokens` column type. Every error has a `message`.
- `app/` is the PostgreSQL extension around it: settings, catalog, error reports and files.
- `tests/` runs the library, with the crates it calls.

What is promised of the whole stands in public proof functions next to what they speak of: every
codec is lossless (`value::lemma_value_roundtrip`), encoding is canonical
(`value::lemma_value_canonical`), recoding keeps the ids, artefacts read back as they were written,
text cut by token count still reads (`detok::lemma_chunk_reads`), a value survives text output and
input (`tokens::lemma_text_io_roundtrip`), and a mapping never appears under its final name while
short (`registry::write::lemma_linked_only_when_flushed`).

What is taken on trust is stated where it is called. Four outside crates do such work, each behind
small functions that say what they are trusted with: `stream-vbyte`, `sha2`, `constriction` and
`tiktoken-rs`. Of the standard library it is `String::push`, the `Debug` form of a string, and
`core::str::from_utf8`; Verus's own library adds what it states of the rest.
