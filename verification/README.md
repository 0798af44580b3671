# ste_checker

Checks Markdown against the part of ASD-STE100 (Simplified Technical English) that a program
can decide: the approved wordlist, the part of speech of each word, sentence length, noun
clusters, the passive voice, compound tenses, -ing forms and contractions. Findings are an aid
for a writer, not a certificate.

The library in `src/` is written in Verus and verified: every public function states what it
returns, and the properties the tool promises as a whole are proved as lemmas.

## Layout

- `src/document.rs`: the tagged document the rules read (tokens, headings, sentences).
- `src/tags.rs`: the ordered cascade that corrects the tagger's parts of speech.
- `src/rules/`: the nine rules; `src/lib.rs` runs them (`check`) and collects the
  out-of-vocabulary words (`vocabulary`).
- `src/wordset.rs`: the openSTE wordlist; `src/glossary.rs`: `docs/glossary.nix`, with a strict
  parser for the data subset of Nix.
- `src/skeleton.rs`: the glossary skeleton that `--suggest-glossary` prints.
- `src/report.rs`: findings with byte offsets, for JSON and for the human report.
- `src/laws.rs`, `src/readback.rs`: the proved properties, among them that spans index the
  source, that a glossary and the descriptive text type only take findings away, that headings
  are never checked, that a skeleton reads back as a glossary of the words it lists, and that a
  glossary written out reads back as what was written.
- `src/spacing.rs`: spacing is not part of the glossary grammar: a glossary written with any
  blanks and comments between its tokens, in either spelling of an entry, reads back the same,
  and so does any file the parser accepts once written out again (proved outright for ASCII
  files, whose names lowercase the way `to_lowercase` does ASCII).
- `app/`: the command line. It parses Markdown and tags it with Harper, reads the wordlist with
  serde, and renders reports with miette and serde_json.
- `tests/`: hand-tagged documents for each rule, and a deterministic metamorphic fuzzer.
