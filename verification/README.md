# namegen

Generates names from XML rule files. A rule file holds rulesets (each a set of
weighted rules), and lists of items; a rule lays out a name as a sequence of
parts: a space, a hyphen, an item drawn from a list, or a name drawn from
another ruleset. Items of large lists are drawn from a character Markov chain
trained on the list.

Layout:

- `src/xml.rs` - the parsed document as plain nodes (roxmltree does the parsing).
- `src/text.rs` - character-level helpers (digits, prefixes, substrings).
- `src/xmlparse.rs` - rules, rulesets and the reader of a rule file.
- `src/mchain.rs` - character chains (markov crate) trained on a list.
- `src/document.rs` - a rule file read whole; seeded weighted selection (oorandom).
- `src/namegen.rs` - menu entries and name generation with retries.
- `src/fixedgen.rs` - the simpler generator with bare displays and padded output.
- `app/main.rs` - the interactive command-line front end.

Every function under `src/` carries a contract checked by Verus; the calls into
roxmltree, markov, oorandom, random-pick and std's clock and Unicode tables
stand behind small trusted wrappers whose doc comments say what is assumed.
