# wordpiece

A WordPiece tokenizer library written in Verus.

- `src/` is the verified library: vocabulary lookups, BERT-style and CJK
  pre-tokenization, greedy longest-match WordPiece encoding, decoding,
  initial-alphabet extraction for training, word counting, and the
  plain-text and binary vocabulary formats (as bytes and text; CRC32
  included). Each public function states its result exactly over spec
  functions; the laws of the library (vocabulary round trips, decode after encode, well-formed
  pre-tokenization, valid encoder output, text format round trip, alphabet
  ordering) are proof functions next to the code they are about.
- Unicode NFC normalization is done by the `unicode-normalization` crate
  and lowercasing by `str::to_lowercase`; their results are named, not
  restated (NFC is stated to leave ASCII text unchanged). Whitespace is
  `char::is_whitespace`, stated as the 25 `White_Space` characters.
- `app/` holds the file-system front end (save/load of vocabularies,
  reading a corpus), error display, the float progress percentage and the
  stderr progress printer.
- `tests/` runs the library on concrete inputs.
