# logseq_core

A verified library that turns a Logseq markdown page into an AST and renders
such an AST as blog-style markdown, with two small command-line tools around it.

- `src/` — the library, verified with Verus:
  - `text.rs`: character-sequence helpers (`str::trim` and friends) and their models;
  - `ast.rs`: the AST types and their mathematical models;
  - `tokenize.rs`: inline tokenizer (page refs, block refs, tags, embeds, links, code spans);
  - `property_value.rs`: property values, where bare URLs also become links;
  - `parse.rs`: the page parser (an ordered stream of top-level blocks and blank
    lines; nesting, properties with parsed values, markers, code fences);
  - `blog.rs`: the blog-markdown renderer.
- `tests/` — tests of the library on concrete inputs.
- `app/` — `logseq-ast` (page to JSON AST) and `logseq-ast-to-md` (JSON AST to
  markdown), chosen by the program name; JSON goes through serde copies of the AST types.
