# prompthub

PromptHub builds prompts out of layers. A `Promptfile` names a base layer (`FROM`), further
layers (`LAYER`), variables, parameters, includes and a task; the layers' `[section]` blocks
are merged in order and the variables substituted. Layers can be pulled from and pushed to a
registry, and installed skills can be exported as layers.

## Layout

- `src/` — the library, verified with Verus: the Promptfile parser, layer sections, merging,
  rendering, version selection, the pull/push decisions, the registry's checks, the
  similarity analysis between skills and the export and refactoring edits. Each public
  function states its result in its contract; the `law_*` proof functions state the
  properties that relate several functions.
- `tests/` — tests of the library on concrete values.
- `app/` — the programs around the library: the `ph` command line, the MCP server
  (`ph-mcp`) and the registry server (`ph-registry`). File and network I/O, the database,
  the command-line parsing and the floating-point similarity scores live here.

Calls into outside crates (regex, semver, sha2, hex, dirs, serde_yaml, bcrypt, rand,
chrono) are made from small wrappers in `src/` whose contracts say what those crates
document; everything built on them is verified.
