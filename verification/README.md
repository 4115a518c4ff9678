# agents_discovery

Finds the `AGENTS.md` files under a working directory and writes the section that
tells an agent which of them to read and when. The library is written in Verus:
every function states what it returns, and the statements are proved. They rest on
what is believed without proof of the functions of `serde_json` and of `std` that
are called in `src/json.rs`, `src/text.rs` and `src/set_text.rs`; the comments
there say what that is.

- `src/agents_md.rs`: the file names that are looked for, and their rank.
- `src/path.rs`, `src/order.rs`, `src/sort.rs`: paths, their order, a merge sort.
- `src/tree.rs`, `src/discovery.rs`: what the entries of a walk mean, which file
  speaks for a directory, and the tree that comes of it.
- `src/discovery_laws.rs`: what holds of every such tree.
- `src/request.rs`, `src/json.rs`: the request for summaries, its JSON, and the
  text of the reply.
- `src/summaries.rs`, `src/validation.rs`, `src/set_text.rs`: which replies are
  accepted, and the messages for those that are not.
- `src/section.rs`: the section, and how it is put in front of instructions.
- `src/text.rs`: the operations on text that the others use.

`app/` walks the file system with `ignore`, reads the files, and talks to the
model. `tests/` runs the library on examples.
