# repo_metadata

Repository metadata discovery: what is known of local and remote repositories, how it travels
between a client and a remote server, how it is searched, and what follows from its changes.

- `src/` is the library, written and proved in Verus.
  - `path`, `identifier`: absolute paths of either platform family; repositories and places.
  - `node`, `tree`, `update`, `event`: files and directories, file trees, changes, reports.
  - `listing`: what becomes of a tree when directories of it are loaded.
  - `query`, `scan`, `model`: typed queries, the bounded scan of a local repository, and the
    decision how a query is answered.
  - `proto`, `repo_metadata_proto`: messages, and the conversions to and from them.
  - `project_rules`: searches for the rules of projects and which of them take effect.
  - `wait_for_events`, `channel`: waits of conversations, their watchdogs, and the channel that
    the result of a wait travels through.
  - `text`, `sequence`, `table`: what the others are built from.
- `tests/` runs the library on concrete values.
- `app/` is ordinary Rust around it: walking directories, reading files, talking to hosts, timers.
