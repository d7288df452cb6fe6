# wm

The core of a tiling window manager, written in Verus and proved against its
contracts: the container tree (attaching, detaching, flattening and wrapping
containers, moving them within the tree, focus order, lowest common
ancestors, sorting monitors), matching displays to monitors, the decisions
taken on window events, the queue of pending changes, and parsing of deltas.

- `src/container/` — the tree: its model (`model.rs`), the verified
  operations (`tree.rs`, `monitors.rs`, `focus.rs`), errors, and the laws the
  operations obey (`laws.rs`).
- `src/display.rs`, `src/monitor.rs` — following display changes.
- `src/events.rs` — what each window event does.
- `src/pending_sync.rs` — changes waiting to be applied to the system.
- `src/delta.rs`, `src/geometry.rs`, `src/vec_deque_ext.rs` — small parts.
- `app/` — plain Rust around the library: floating point lengths and tiling
  sizes, serializable copies of library types, and guarded calls.
