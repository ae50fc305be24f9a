# polars_usaddress

US address parsing with a linear-chain CRF: a tokenizer, per-token feature
extraction, the attribute encoding the tagger reads, and the collapsing of a
token/label sequence into address components. Tagging runs through the
`crfs` crate on a CRFsuite model supplied as bytes, after the library has
checked that every part of the model that tagging reads is in place.

Layout:

* `src/` — the library, verified with Verus:
  `tokenize` (normalisation and tokens), `features` (token features, their
  encoding, and the id-based encoding), `components` (collapsing and address
  types), `model_format` (the model layout check), `crf` (the tagger and the
  attribute lookup), `attr_cache` and `bounded_ids` (attribute ids), `text`
  (character primitives), `laws` (properties of the library as a whole).
* `tests/` — tests, including a small model written in memory.
* `app/` — the Polars plugin: expressions over a column of addresses, with the
  model and word lists read from files.
