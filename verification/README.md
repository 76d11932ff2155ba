# dix snapshots

Portable, versioned snapshot files of a Nix closure (schema version 1): the
root store path, every closure member with its NAR size in bytes, and the
paths selected by the system profile.

- `src/store_path.rs`: syntactic validation of top-level store paths.
- `src/order.rs`: the code point order of text and its properties.
- `src/snapshot_file.rs`: the snapshot file, its validation (`to_snapshot`)
  and the validated comparison form.
- `src/export.rs`: deterministic export of a captured closure (`capture`)
  and the laws of export.
- `src/command.rs`: the decisions of the `snapshot` and `diff-snapshots`
  commands as a step function, and the colour decision.
- `app/`: the command-line program: argument parsing, JSON reading and
  writing, atomic file replacement, logging.
