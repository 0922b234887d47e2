# ctx

`ctx` gathers context from a codebase in one read-only command: a directory
tree, files found by glob, grep matches with context or with their enclosing
function, files read with numbered lines, the symbols of files, a project
overview, the import tree of a file, the import chain between files, and the
flow of a symbol through the code.

The library in `src/` is written in Verus. Each function states what it returns
in its contract, and Verus proves the code against it:

- `text`, `paths`, `tokens`: lines, trimming, searching, decimal rendering,
  path operations (the `std::path` calls behind named results) and token
  budgets.
- `ts`, `skeleton`: a plain model of tree-sitter syntax trees, built node by
  node from what tree-sitter reports of the tree of the source (named
  results), and what the commands read from it (imports, symbols, enclosing
  functions, the kind of each reference, skeletons).
- `commands::*`: the decisions and renderings of each command. `chain` holds
  the import graph and its breadth-first search, with proofs that a traversal
  lists each file once at its shortest distance and that the path it finds is
  a shortest import chain; `grep` proves that merged blocks never overlap and
  that normalizing a pattern twice changes nothing more; `read` proves that a
  line range written in decimal reads back as itself; `find` proves that its
  listing is newest first (by modification time); `symbols` proves that its
  listing keeps each kind in one group; the import graph, built from each file's
  resolved imports, has exactly one edge per resolved import, recorded in
  both directions; a traversal lists every reachable file,
  shallowest first; `flow` proves that its sites come out as a permutation
  of those found, none followed by one that belongs before it, and `grep` and
  `flow` keep their files one per path in path order.
- `resolve`, `filter`, `output`, `walker`: import resolution candidates, the
  prompt of `--ask`, the output pipeline and the rules of the walk.

`app/` is the program around the library: argument parsing with clap, walking
directories, reading files, checking which files exist, running the search,
the assistant's program for `--ask`, JSON output and printing.

`tests/` exercises the library on concrete inputs.
