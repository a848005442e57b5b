# citry_template_parser

Parsing, compiling and render-plan lowering for Citry templates, written in
Verus: every function of the library carries a contract that Verus proves.

## Layout

- `src/` is the verified library.
  - `parser.rs` parses a template (tags, attributes, `{{ expr }}`
    interpolations, `<c-raw>`) into the tree of `ast.rs`. Every token is the
    piece of the source it names, the elements cover the source exactly, and
    every error names its line and column. Its spec functions `g_elems`,
    `g_node` and `g_attrs` give the grammar of element markup, on which the
    parser is proved to succeed with the tree the grammar reads.
  - `lang/` holds the expression languages: Python expressions are checked
    and their variables collected (`python.rs`); the other languages report
    that they are not available.
  - `compiler.rs` turns a template into the language-agnostic intermediate
    form; `render_plan.rs` lowers that form into a render plan whose entries
    are aligned, by position, with the items they stand for.
  - `walk.rs` is the walk of a render plan as a state machine: the caller
    performs each step it hands out.
  - `html.rs` escapes text and formats attribute regions exactly as
    `markupsafe` and the host's formatter do; `body.rs` gathers the parts a
    body executor produces; `deps.rs` dedups dependency records in
    first-seen order.
  - `text.rs` holds character-level helpers, and the library's only trusted
    item: the wrapper of `String::push`.
- `tests/` runs the library on concrete inputs.
- `app/` is the Python binding (pyo3): it performs the host calls the
  library's walk and body executor ask for.
