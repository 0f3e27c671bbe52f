# microcad_parser

Parts of the µcad language tooling, written in Verus with their contracts
proved:

- `identifier`: identifiers, lists of distinct identifiers, qualified names
  `a.b.c` and their text.
- `lang_type`: the µcad types (`int`, `[int]`, `[int => string]`, ...), their
  text and a reader for it.
- `ord_map`: items in insertion order, found by name.
- `symbols`, `use_statement`: symbols and modules, the lookup of qualified
  names, and what `use` statements add to a context.
- `parameter`, `call`: evaluated parameters and call arguments, and how
  arguments are bound to parameters.
- `format_spec`: precision and leading zeros of format expressions.
- `pest_test`: test comments in pest grammar files and the Rust tests made
  from them.
- `md_test`, `tree`, `markdown`: tests from the µcad listings of markdown
  documents, ordered into nested Rust modules.
- `moduletree`: the data of the nodes of the intermediate representation.

`app/` holds what reads and writes files, runs `rustfmt`, holds nodes in an
`rctree` tree, and gives the error types `Display`.
