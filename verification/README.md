# vverdad

The verified core of VVERDAD, an engine that loads a project of data files
and Jinja templates, renders the templates as their requirements are met,
runs analysis bundles in containers, and writes the outputs.

- `src/` is the library, verified with Verus: project tree and key
  extraction, requirement matching and dependency graphs with cycle
  detection, the reactive rendering schedule and the phases of a run, paths
  and output naming, the `.vv` zip source, spreadsheet and CSV tables, unit
  syntax, compound units and dimensions, time syntax and the leap second table, and the
  decisions around analysis bundles. Calls into `zip`, `quick-xml`, `csv`
  and `minijinja` stand behind trusted items whose contracts name what
  these crates return.
- `app/` is the program around it: file and network I/O, the command line,
  template rendering, serde data loading, floating-point quantities and
  epochs, and the container runtime.
- `tests/` runs the library on concrete values.
