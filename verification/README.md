# Transmitic core

Sharing files directly between users who know each other: each user lists who may have which
files, and downloads what others share.

- `src/` is the library, verified with Verus: the configuration and its checks, the base64 and
  message formats, the handshake and the encrypted streams, the decisions of uploads and
  downloads, the queues, the log, and the state that a user interface shows. Cryptography,
  checksums and base64 engines come from other crates; `src/crypto.rs` says what is taken from
  them.
- `app/` is ordinary Rust around it: sockets, threads, channels, the disk, JSON and percentages.
- `tests/` runs the library on concrete values.
