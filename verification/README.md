# openmetrics_parser

A verified parser for the Prometheus text exposition format, and an
annotator that turns a MediaMTX metrics listing into such an exposition.

Layout of `src/` (verified with Verus):

- `text.rs` – lines, whitespace, substring search, decimal digits.
- `mediamtx.rs` – the MediaMTX annotator and its specification `annotation`.
- `number.rs` – sample values: `i64`s, or binary64 floats held by their bit
  patterns, compared as IEEE 754 orders them; `str::parse::<i64>` on chars.
- `syntax.rs` – the line grammar of the exposition format and the grouping of
  lines into families (`scan`).
- `labels.rs` – duplicate label names, sorting labels by name, lining up a
  sample's labels with its family's.
- `types.rs` – values, families under construction, errors, and their models.
- `family.rs` – what a family does with each descriptor and sample, and the
  checks a complete family passes.
- `parser.rs` – parsing a whole exposition (`parse_spec`), and the laws of its
  results.

Floats are read and printed outside the verified library: `app/` reads every
text that `float_texts` lists with `str::parse::<f64>`, hands the bit patterns
to the library in a `FloatTable`, and turns the library's results back into
`f64` values and error messages.

The law `lemma_parse_reads_listed_floats` shows that parsing consults the
table only at those texts (and at the empty text, which no float reading
accepts), so a table built this way gives the result that reading every
text with `str::parse` would.
