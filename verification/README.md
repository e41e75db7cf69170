# catalog_diagram

Turns a 4D database catalog (the `<base>` structure XML) into diagrams:
interactive HTML, SVG, PNG, Mermaid and Graphviz, plus a JSON `inspect`
summary of tables, fields and relations.

## Layout

- `src/` — the library, written in Verus. Its functions carry contracts that
  Verus proves, except a few small trusted wrappers around outside calls
  (`String::push`, `format!("{:?}")`, `String::from_utf8_lossy`, encoding_rs
  decoding, roxmltree parsing and regex compiling and matching), whose
  contracts are taken on trust and say in their doc comments what they claim:
  - `parse`, `xml`, `text` — byte decoding, the XML declaration, and the
    reading of tables, fields, relations and indexes from the element tree;
  - `select` — the table subset: explicit lists, a pattern, and the
    neighbourhood of a table or a field in the relation graph;
  - `order`, `inspect` — name ordering and the `inspect` document;
  - `export` — Mermaid and Graphviz text with safe identifiers and labels;
  - `render_svg`, `render_html`, `scene`, `layout` — escaping, palettes,
    style sheets, badges and the sidebar shared by the renderers;
  - `request`, `timestamp`, `error` — output targets, variants, the UTC
    stamp, exit codes and the JSON error line.
- `app/` — the command-line program: argument handling, file I/O, fonts,
  the floating-point layout and geometry, SVG/PNG drawing and the serde
  copies of the `inspect` types.
- `tests/` — tests run against the compiled library.
