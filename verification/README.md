# slopgraph

Finds graph-shaped slop in one TypeScript program (the files one
`tsconfig.json` includes) and prints a report of findings: single-use chains,
empty wrappers, false sharing, unreachable files and functions,
near-duplicate functions, tramp data, type clones and unreaching tests.

## Layout

- `src/` is the library, verified with Verus: path and program-file rules,
  entry points, the module graph, the typed call graph, every detector, the
  order of findings and the text of the report. Each public function states
  its result exactly in its contract; the `law_*` proof functions state what
  holds across calls (report order, reachability in production mode, the
  symmetry of near-duplicates, the single-use property of chains, that the
  styled report spells the plain one, and more).
- `app/` is the command line around it: it reads the files, parses them with
  oxc, resolves imports with oxc_resolver, asks a tsgo process how calls
  resolve, and prints the report (in color on a terminal).
- `tests/` runs the library on concrete programs.
