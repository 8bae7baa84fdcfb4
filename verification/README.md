# diff-kdbx

Semantic diff for KeePass KDBX vaults, verified with Verus.

The library (`src/`) works on a plain model of a decrypted vault
(`model::Database`) and computes:

- `compute::compute`: the structured `ChangeSet` between two vaults
  (added, removed, moved and modified groups and entries, field-level
  changes, metadata changes, noise suppression, deterministic order);
- `dump::dump`: the stable text dump used as a git textconv driver;
- `render::text::render`: the tree-shaped text rendering of a change set,
  in ANSI colors when asked for.

Each public function states its result exactly over spec functions, and
`properties` proves laws that span functions (a vault compared with
itself shows no change; swapping the inputs swaps added and removed, and
keeps the modified counts as long as no moved UUID is a group in one vault
and an entry in the other; the summary counts the listed changes;
suppression partitions field changes; the recycle bin stays hidden by
default; escaping names is lossless). Hashing (`sha2`), Unicode normalization (`unicode-normalization`)
and UUID formatting (`uuid`) are called through small trusted wrappers.

`app/` is the command-line program: it parses arguments, reads and
decrypts `.kdbx` files with `keepass`, converts them to the model, prints
what the library renders (or JSON through `serde`), and sets the exit code
(0 no changes, 1 changes, 2 error).
