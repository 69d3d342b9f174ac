# codegraph

Indexes TypeScript and JavaScript code bases into a graph of symbols, files
and their relationships (calls, imports, re-exports, reads and writes),
traces bounded neighbourhoods in that graph and renders them as D2 or
Mermaid diagrams.

The library under `src/` is written in Verus and verified:

- `parse` parses a source with tree-sitter, walks the tree depth first and
  holds it as plain values (kinds, fields, parents, children, character
  ranges);
- `extract` reads symbols, calls, imports, re-exports and references off a
  syntax tree;
- `resolve` turns relative import specifiers into candidate paths and picks
  the first that names a file;
- `graph` is the code graph over `petgraph`; `index` builds it from the
  facts of each file, links calls and references once every file's symbols
  are known, and answers the command line's queries;
- `traverse` traces the graph breadth first to a depth;
- `render` prints traces as D2 (with optional layers) or Mermaid;
- `walk` decides which directory entries are walked and which files are
  indexed;
- `text` holds the string helpers the others share.

`app/` is the command line: it walks directories with `ignore`, reads files,
asks the file system which candidate paths are files, and prints or writes
what the library computes.
