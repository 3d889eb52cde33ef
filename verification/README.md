# geiger

Counts the unsafe code in a crate and in the crates it depends on, and lays the
counts out as a dependency tree.

The library in `src/` is verified with Verus. From the bottom up:

- `text`, `paths`: characters, words, lines, numbers; paths and their order.
- `count`, `tokens`, `syntax`, `visitor`: the metrics, source code as tokens and as
  a tree, and the walk through the tree that fills the metrics.
- `dep_info`, `executor`, `rs_files`: the files that a build reads, and how often
  each was scanned.
- `scan`: the unsafe code in the files of a crate.
- `platform`, `graph`: which dependencies count, and the graph of packages.
- `options`, `table`, `tree`, `report`: what is printed. `tree_laws` holds what is
  proved of every tree.

`app/` is the command line program around it: arguments, files, and the calls
into cargo.
