# syncer

Makes a directory on a server hold what a local directory holds. The client takes a snapshot of
both sides, compares them, shows what changed and, once that is confirmed, deletes, creates and
sends what is needed.

- `src/` is the library, verified with Verus:
  - `path`, `order`, `text`: paths as bytes, their order, numbers as text;
  - `snapshot`, `walk`: what a directory holds, and what of it is left out;
  - `diffing`, `entries`: what changed between two snapshots;
  - `plan`, `sync_laws`: what has to be done, and that it leads to where it should;
  - `session`: what the client does from its start to its end;
  - `run`, `remote`: the requests, one after the other, and what each of them asks for;
  - `server`: what the server answers, and when it refuses;
  - `report`, `cli`: what is shown to the user and what the command line asks for.
- `app/` walks directories, speaks HTTP and talks to the user.
- `tests/` runs the library on concrete values.

Paths are those of Unix.
