# glean

`glean` records which files a tool has already processed, so the next run only
sees what changed since. Each consumer (a tool) keeps its own baseline: the
content hash of each file when the consumer last marked it. A file is changed
when its bytes differ from that baseline.

This is the tracker as a library verified with Verus, and the program around it.

- `src/` holds every decision and every format, with contracts that are proved.
  - `repo` - baselines, the change set, marks and counts
  - `content` - which files have a fingerprint, and the fingerprint itself
  - `hashes`, `order` - sorted maps and sets of paths, in byte order
  - `git` - what git is asked, and how its answers are read
  - `layout` - where baselines are stored
  - `cmd`, `run` - what each subcommand decides and writes
  - `ink`, `json`, `text` - colour and notices, JSON, strings and numbers
  - `laws` - what holds of the library as a whole
- `app/` is the program: the argument grammar, files, processes, terminals and
  the MCP server.
- `tests/` runs the library on concrete values.

Paths are those of Unix systems: `/` separates their components, and a path that
starts with it is absolute.

What is taken on trust is marked `external_body` or `assume_specification` and
says so in its comment: appending a character to a string and decoding UTF-8
(std), the clock (std), terminal escape sequences (`clap`), and JSON text
(`serde_json`).
