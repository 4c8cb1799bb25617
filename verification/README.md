# mathtutor

A math tutor over a curriculum graph: atoms (one concept, one short
lesson, three quizzes) grouped into clusters and areas, linked by
prerequisites. A learning path names target concepts; the scheduler walks
toward them, presenting lessons, asking for the lessons and quizzes it
lacks, and reviewing due quiz cards.

## Layout

- `src/` — the library, verified with Verus. The curriculum model and its
  checks (`curriculum`, `graph`, `check`), target resolution and
  reachability (`path`, `reach`), the scheduler and the record it prints
  (`scheduler`, `envelope`), progress from the event log (`event_log`,
  `progress`, `cards`), the views (`discover`, `state`, `tree`,
  `tree_view`, `syllabus`), authoring against the user overlay
  (`overlay`, `store`, `subpath`), the MCP server's start-up decisions
  (`server`), the OAuth flow's checks, sign-in form, redirect and
  token issue (`oauth`, `auth`), and the token endpoint over its stored
  codes and refresh tokens (`grants`: a code is spent once, a refresh
  token is replaced when used). Laws that span several
  functions are the public `law_*` proof functions.
- `tests/` — tests of the library.
- `app/` — the `mt` command line: argument parsing, the libSQL database,
  the AYML curriculum files, and the FSRS memory model (floating point).

## What this build leaves out

- The MCP server's HTTP transport. `mt mcp` checks the configuration
  (auth modes, bind address, public URL) and stops: the HTTP and MCP
  protocol crates are not part of this build, so the verified token
  endpoint (`grants`) runs over in-memory tables rather than the
  database's OAuth tables.
- Sync to a Turso replica. The database is a local libSQL file; with
  `TURSO_URL` set, `mt` says that it ignores it.
- A curriculum compiled into the binary. The curriculum is read from
  `--graph DIR` or `$MT_GRAPH`.
