# memo128

Encodes a 128-bit value as three memorable sentences and decodes them back.
The library's code carries contracts that Verus proves. Two things stand on
trust rather than proof: the SHA-256 digest comes from the `sha2` crate,
whose behaviour is assumed, and a `String` push comes from std. The
round-trip law holds for values whose sentences no other index tuple
spells.

A 7-bit checksum (the top bits of the SHA-256 digest of the data) is appended
to the 128 data bits; the 135 bits are cut into three 45-bit chunks, and each
chunk picks one phrase from each of five dictionaries (character 10 bits,
setting 10, action 8, object 9, outcome 8). Decoding parses each sentence back
into its phrases (a sentence that no tuple of phrases, or more than one,
spells is rejected), rebuilds the bits and checks the checksum. A fuzzy decoder
matches sentence segments against the phrases within a Levenshtein distance.

Layout:

- `src/bits.rs`: the 135-bit payload, its chunks and the indices in a chunk.
- `src/checksum.rs`: the checksum, over the `sha2` crate.
- `src/hex.rs`: hexadecimal text to bytes and back.
- `src/text.rs`: characters of strings and Unicode whitespace trimming.
- `src/dictionary.rs`: dictionaries, built from the lines of a dictionary file.
- `src/parse.rs`: exact parsing of a sentence into its five phrases.
- `src/memo.rs`: `Memo128` with `encode` and `decode`, and their round-trip laws.
- `src/fuzzy.rs`: Levenshtein distance and `FuzzyMemo128`, with its laws:
  soundness of the candidate parses, typo tolerance (including any one-character
  substitution) and monotonicity in the allowed distance.
- `app/main.rs`: the command line; reads the dictionary files from the
  working directory.
