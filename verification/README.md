# handy_text

Post-processing of speech transcriptions, verified with Verus: removing filler
words and stutters, applying exact word replacements, collapsing spoken
self-corrections ("send it to marketing, I mean sales"), and the verified parts
of correcting words towards a custom vocabulary.

## Layout

- `src/text.rs` — character sequences: UTF-8 byte offsets, trimming, splitting
  on whitespace, joining.
- `src/unicode.rs` — Unicode character properties and case mappings from std.
- `src/pattern.rs` — regular expressions through the `regex` crate.
- `src/similarity.rs` — Levenshtein distance (`strsim`) and Soundex (`natural`).
- `src/corrections.rs` — clause splitting, correction markers, false starts.
- `src/cleanup.rs` — filler words per language, stutters, whitespace runs.
- `src/replacements.rs` — user word replacements.
- `src/custom_words.rs` — n-gram keys, punctuation and case handling, the
  candidates a key is scored against, and assembling the corrected text.
- `src/laws.rs` — properties that hold for every input.
- `app/lib.rs` — the floating-point scoring of custom-word candidates and the
  `apply_custom_words` entry point built on the library.

Character properties, case mappings, regular-expression matching and Soundex
codes are named rather than restated: the contracts are exact in terms of
those names.
