# bpe_tokenizer

A byte-level byte-pair-encoding tokenizer whose logic is verified with Verus.

- `src/` is the verified library: training (`training.rs`), encoding and
  decoding (`tokenizer.rs`), the checks of a tokenizer's parts and the
  content of a saved tokenizer (`persist.rs`), the maps it is built on
  (`pair_map.rs`, `token_table.rs`), and the mathematical model that the
  contracts are stated in (`model.rs`, `validity.rs`).
- `app/` reads and writes tokenizer files as JSON and exposes the tokenizer
  to Python.
- `tests/` runs the library on concrete inputs.

The central properties are proved in `src/`: decoding an encoding gives the
text back (`lemma_decode_encode`), loading a saved tokenizer gives the same
tokenizer back (`lemma_save_load_roundtrip`), and training gives a valid
tokenizer that learned exactly the merges of the training model
(`Tokenizer::train`).
