# kvspace

A filesystem-style key-value space: keys are paths (`/dir/name`, members `base·name`,
map elements `m·[i,j]`), values are XValues in a self-describing wire format:
`[2B headlen LE][1B ref][1B storetype][1B ro][4B vid LE][4B raw_len LE][dims][kindexpr UTF-8][raw]`,
the layout the library's encoder writes and its decoder reads (`encode_head_perm_spec`).

The library under `src/` is written in Verus. Its functions carry `requires`/`ensures`
contracts over mathematical models (sequences, maps of keys to bytes) and are proved:

- `xvalue*`, `codec`, `le`, `coord`: the wire format, member matrices, coordinates and the
  kindexpr grammar; `xvalue_laws` proves that decoding an encoding gives the value back.
- `store`, `backend`: the key-value space over a byte store (directory indexes, member
  indexes, soft links, extension indexes), with laws such as read-after-write and
  delete-then-read.
- `fs_layout`, `resp`, `abi_codec`, `cli_value`, `watch`, `tree_layout`: the decisions of
  the filesystem and Redis stores, the C ABI records, command-line values, watch polling
  and the order and branches of the tree listing.

`app/` holds what is not verified: the command-line program, file and network I/O, the
C ABI glue and float formatting.
