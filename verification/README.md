# banana

A software supply-chain toolkit, written in Verus: the logic is a verified
library, and a thin command line drives it.

## Layout

- `src/` — the verified library.
  - `graph.rs` — file dependency graphs and the detection of dependency cycles.
  - `symbols.rs` — extraction of function and type names from source files, per language.
  - `merkle.rs` — a BLAKE3 Merkle tree with audit paths and their verification.
  - `ledger.rs` — supply-chain records, their SLSA v1 provenance statements, and
    the Ed25519 signature of the ledger's Merkle root.
  - `oci.rs` — OCI image assembly: configuration, descriptors, manifest, digests.
  - `chunks.rs` — chunk manifests of artifacts and the checking of received chunks.
  - `swarm.rs` — a node's artifact store and its table of peers.
  - `telemetry.rs` — reading the Linux RAPL energy counter and the energy between two readings.
  - `digest.rs`, `hexfmt.rs` — BLAKE3 and SHA-256 digests and their hexadecimal text.
- `tests/` — tests of the library on concrete values.
- `app/` — the `banana` command line: argument handling, files, JSON, tar
  archives, and the floating-point energy and carbon estimates.

Calls into `blake3`, `sha2`, `regex`, `ed25519-dalek`, `flate2`, `chrono` and
`rand` stand behind small trusted wrappers whose contracts are documented where
they are declared; everything else in `src/` is proved.
