# asciidork_parser

The verified core of an AsciiDoc parser, written in Verus. Each public
function states what it computes in its `requires`/`ensures`, over
mathematical models of the data (`Seq`, `Map`, spec functions), and Verus
proves it.

What it covers:

- preprocessor directives: `include::` (target resolution, which target
  the resolver is asked for, line ranges, tag selection, re-indentation,
  encodings), `ifdef`/`ifndef`/`endif`, `ifeval` (its comparison and what
  follows from it), skipping of conditional blocks;
- the document header: attribute entries, author and revision lines, date
  and time attributes, the document's own file attributes;
- sections: generated ids, heading levels and level offsets, headings out
  of sequence, the table of contents;
- attribute lists: reading a list through its closing bracket, where
  entries split, how each is classified, and what each entry adds to the
  list (values, named values, id, roles, options, shorthand); attribute
  references, substitution settings;
- tables: the starting state (data format, separator, header row), table
  and cell specs, table context bookkeeping, reading the cells of
  prefix-separated tables and of delimiter- and comma-separated ones, and
  gathering rows into header, body and footer rows (a header row found in
  the data is reread);
- document structure (`src/structure.rs`): from the chunks the reader
  produces (section headings with their levels, and other blocks), which
  blocks belong to which section and where each section ends, nested
  sections, delimited blocks whose contents are blocks (and their closing
  delimiters), the preamble, and a book's layout into special sections,
  parts and sections; headings out of sequence, level 0 sections outside
  books, empty book parts and sections nested in special sections that
  allow none are reported; each section restores the section level it
  was read in and leaves any bibliography;
- token lines and splitting of comma-separated terms.

Errors are recorded in the parser's `errors`. A parser set to `strict`
instead stops at the first error of an attribute list, an attribute entry
or the document structure and returns it as a `Diagnostic` with the byte
range it points at.

What it does not cover: the lexer's line classification (whether a line
is a comment, an attribute list, a block title, a heading), the syntax
tree, and the parsers of leaf blocks built on both (paragraphs, delimited
blocks whose contents are kept as written, lists, inline formatting, the loops that read a table's rows and
parse each cell's content). The library takes the lexer's tokens and the
reader's chunks as input and leaves building the tree to its caller;
sections are given as events (`Open`, `Block`, `Close`) rather than as
nodes, and their ids, anchors and table of contents entries are made by
the functions of `src/section_id.rs` and `src/toc.rs`, not by the
structure parser; cell contents and attribute
values are kept as the tokens that the inline parser reads. Header attribute values are stored as written: replacing `{name}`
references in them and checking the values of built-in header attributes
are not part of it.

Layout:

- `src/`: the library, one module per concern; `src/laws.rs` holds the
  properties that relate several operations.
- `tests/`: tests run against the compiled library.
- `app/`: plain Rust around the library: floating-point `ifeval` operands,
  the system clock, and std's `Display`/`Error` for error types.

Outside crates: `regex` (patterns, behind trusted wrappers in `src/rx.rs`),
`bumpalo` (UTF-16 decoding), `jiff` (dates and times, `src/time.rs`).
