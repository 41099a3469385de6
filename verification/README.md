# Leaves

A text-mode disk usage visualization utility, verified with Verus.

`src/` is the library. It holds everything that decides or computes, with
contracts that are proved:

- paths and their order: `path`, `order`, `text`, `show`
- ignore rules and the walk: `globs`, `hazards`, `rules`, `ruleset`, `walk`, `scan`
- entries and forests: `entry`, `siblings`, `keymap`, `lineage`, `growth`, `forest`, `leaves`, `merge`,
  `room`, `parallel`, `partition`, `regroup`, `ids`, `surgery`, `checks`
- what the user sees and does: `state`, `app`, `actions`, `explorer`, `area`, `render`, `frame`
- settings and arguments: `config`, `colors`, `cli`, `error`, `diagnostics`
- laws of the library as a whole: `accounting`, `conservation`, `roundtrip`, `soundness`, `steadiness`,
  `shape`, `bounds`, `matching`, `assembly`, `sharing`, `graft`, `detail`, `whole`, `restoring`, `rebuilding`, `hollow`,
  `switching`, `journey`

`app/` is the program around it: the terminal, the file system, threads, the
database, the clipboard, and what is computed in floating point.

`tests/` runs the library.
