# rift

The core of a tiling window-manager daemon for KWin, verified with Verus.

`src/` is the verified library:

- `ipc` — protocol types and length-prefixed framing (`encode`, `decode`,
  `frame_len`), with the round trip proved.
- `layout` — the layouts (tile, monocle, columns, spiral, three-column) as
  integer geometry defined for every input; wherever the coordinates stay in
  the 32-bit range, tiles are proved a gap apart and, where room allows,
  inside the area; `neighbor` for directional focus.
- `state` — the cell model: reconcile against a topology, geometry, focus,
  moves, floats, and the runtime controls, each against an exact specification.
- `config` — configuration values and their validation; `keys` — the default
  keybinding table.
- `daemon` — one request in, the state updated, one action out.
- `guarantees` — properties that span calls: no orphaned cell survives a
  reconcile, each cell holds exactly the live windows keyed to it, reconcile
  is idempotent and reports the same counts when repeated, moves keep the
  window count, geometry places exactly what the cells lay out, toggles undo
  themselves, and more.

`app/` is the program around it: the Unix-socket and D-Bus transports, the
config file reader and watcher, and the `riftctl` client (the binary acts as
`riftctl` when invoked under that name). Master ratios are fixed-point
fractions of `RATIO_SCALE` inside the library and floats on the wire.
