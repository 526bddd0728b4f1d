# str_extensions

Extension methods for strings, with their behaviour stated in contracts and proved by Verus.

- `src/building.rs`: `append`, `prepend`, `concat` and `join` on `str`, each stated over the
  characters it produces, with the laws that relate them (mirror, repeated appends, empty
  separator, the length of a join).
- `src/cases.rs`: the six case conversions over a word segmentation: segments without a
  letter or digit are dropped, and the words are written with the case's separator and
  capitals.
- `src/lending.rs`: `Case`, and the case sink that writes a conversion into lent bytes as a
  word walk delivers it; proved to write what the allocating conversions write. A whole walk,
  given as its steps, succeeds exactly when the lend holds the most any step needs, and a
  refusal asks for no more than that, so retrying with at least `wanted` bytes converges.
- `src/resolver/`: the resolution rules, and how the `fancy_regex` resolver compiles boundary
  rules into its pattern (an empty rule list standing for the default rules).
- `src/type_coercion.rs`: a slice as a borrowed `Cow`, an `Arc<String>` or an `Arc<str>`.
- `src/text.rs`: the facts about characters and string slices the rest rests on.

`app/lib.rs` holds what needs the `word_bounds` and `notko` crates: `word_bounds`' resolver
itself, the conversions over raw strings, which segment with it, and `write_case`, which lends storage through
`notko` and lets `word_bounds`' walk drive the library's sink.
