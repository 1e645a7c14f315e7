# apk_vault

A local vault for API keys, grouped by platform. Keys are sealed with
AES-256-GCM under a master key; a whole vault can be exported as a backup
sealed under a passphrase (Argon2 key derivation) and imported again.

- `src/` is the verified library (Verus): text helpers and key masking,
  sealing and opening, backup framing, the in-memory vault with its rules
  (unique names and ids, entries always belong to a platform), listing order,
  and the choice of what to do with a stored master key.
- `app/` is the plain Rust around it: the SQLite store, JSON encoding of
  backups, the operating system's credential store, and the command layer.
- `tests/` runs the library with the real outside crates.
