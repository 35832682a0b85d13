# fast-bpe-rs

Byte Pair Encoding training and tokenization, verified with Verus.

- `src/` is the library. Every function there carries a contract that Verus
  proves: splitting documents with the configured regexes, counting chunks,
  the incremental training loop (pair statistics, frequency buckets and
  in-place splices), encoding with the learned merges and decoding.
  `src/model.rs` holds the mathematical model of training and encoding that
  the contracts speak of, and `src/laws.rs` the properties proved of the
  library as a whole (decoding undoes encoding, special tokens are never
  merged, training does not depend on document order, ...).
- Calls into `fancy_regex`, `hashbrown` and std formatting go through small
  trusted wrappers whose doc comments say what is assumed of them.
- `tests/` runs the library on concrete inputs.
- `app/` holds the command-line trainer (Hugging Face Hub download and
  Parquet reading; which files to read is decided by the verified
  `src/dataset.rs`) and the Python bindings.
