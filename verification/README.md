# groundcontrol

Checks whether the natural-language requirement statements of an OpenSpec plan
can be grounded in the plan's task vocabulary (its *system signature*), and
tells the author what to fix when they cannot.

The library is written in Verus: every function carries a contract over a
mathematical model of its data, and Verus proves the code against it.

## Layout

- `src/text.rs` — character sequences: searching, trimming, splitting, joining,
  decimal notation; the models of `str` operations the rest relies on.
- `src/order.rs` — stable insertion order by a strict order, with the proof
  that it sorts and permutes.
- `src/types.rs` — the signature, grounded atoms, directives and check output,
  with their views; the `Grounder` trait.
- `src/grounders/rule.rs` — the rule-based grounder (keywords and positional
  heuristics) and its laws: status as documented, candidates sorted by
  confidence, arguments drawn from the signature.
- `src/parse/` — reading `tasks.md` (through tree-sitter's Markdown grammar)
  into a signature: task ids, aliases, sorted constants.
- `src/suggest.rs` — Dice similarity on byte bigrams, close matches, and the
  directives for ambiguous and ungroundable statements.
- `src/check.rs` — requirement extraction, checking a plan, merging outputs,
  the human-readable report, and which changes a run looks at.
- `app/` — the command line program: arguments, files, JSON and printing.

## The Markdown grammar

`tasks.md` is parsed with tree-sitter and the Markdown block grammar of the
`tree-sitter-md` crate. The grammar could also be had from
`tree-sitter-language-pack` (`get_language("markdown")`), but that crate
fetches its grammar sources over the network when it is built and when a
language is first loaded; `tree-sitter-md` ships the same block grammar
(tree-sitter-grammars' tree-sitter-markdown) compiled in, so parsing needs no
network and cannot fail to load the grammar.

## Exit codes of the program

| Code | Meaning |
|---|---|
| 0 | All statements grounded (nothing is printed) |
| 1 | Some statement ambiguous or ungroundable (report printed) |
| 2 | Error (missing file, parse error, unknown change) |
