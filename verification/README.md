# sudachi_wasm

Tools around Sudachi dictionaries, verified with Verus.

- `src/` is the verified library: conversion of a dictionary from a YADA trie to a MARISA trie, with
  a packed connection matrix and variable-length word information; sections that lead from readings
  to words; export of the words as comma-separated values; and kana-kanji conversion dictionaries
  built from such values.
- `app/` holds the programs `dic_converter` and `kkc_builder`, which read and write files, and the
  tokenizer for JavaScript.
- `tests/` runs the library on examples.
