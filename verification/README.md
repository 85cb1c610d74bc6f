# hip

`hip` is a terminal coding agent that talks to a local MTPLX server: a chat
prompt, a tool loop (read, edit, multi-edit, search, tree, watch) and the
setup and update helpers around the server.

The crate is split in two:

- `src/` is the library, written in Verus. Every function there carries a
  `requires`/`ensures` contract over mathematical models (`Seq`, `Map`,
  `int`) and is proved by the verifier: the edit engine (exact, quote- and
  whitespace-tolerant matching, CRLF preservation), line diffs, the
  server-sent-event stream decoder, the agent's round decisions, the read
  cache, session files, conversation pruning, version comparison, the
  command parser of the prompt and the small renderers of the UI.
  Calls into other crates (`serde_json`, `shellexpand`, `regex-syntax`) and
  a few `std` functions stand behind trusted wrappers whose contracts are
  documented where they are declared.
- `app/` is the executable around it: argument handling, terminal and
  network I/O, processes and the async runtime. It hands the library plain
  values and acts on the decisions it returns.

`tests/` exercises the library through its public interface.

Verify the library with `verus` on `src/lib.rs` (`--crate-type lib`).
