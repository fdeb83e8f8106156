# sitegen

The templating core of a small static site generator, verified with Verus.

Pages are Markdown documents with an optional YAML front matter between `---`
fences. Layouts are templates that hold placeholders (`{{ key }}`, `{ key }`,
`{{key}}`, `{key}`) and control blocks (`{{ if key }} … {{ else }} … {{ endif }}`,
`{{ foreach key as item }} … {{ endforeach }}`). A page renders inside its
layout, and each layout inside its parent (`default` inside `site`).

Parsing and rendering hand back, in a log, the word of each stray `{{ else }}`
tag (one outside the content of an `if` block); the program prints a warning
for each.

- `src/text.rs` — searching, replacing, trimming and splitting text.
- `src/string_map.rs` — an insertion-ordered string map.
- `src/node.rs` — template nodes and their model.
- `src/parse.rs` — front matter, block content and control blocks.
- `src/render.rs` — rendering contexts, substitutions and rendering.
- `src/site.rs` — site strings, layouts and pages; YAML, Markdown and paths.
- `src/laws.rs` — properties that hold across operations.
- `app/main.rs` — the program: reads the site from disk and writes `output/`.
