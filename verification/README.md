# grug

Pieces of a small blockchain framework, written in Verus:

- `src/keys.rs`: how storage keys are built from a namespace, nested
  prefixes (each preceded by its two-byte length) and a key, and the byte
  operations that turn a prefix into a key range.
- `src/prefix.rs`: `Prefix`, which lists the records under a prefix of a
  key-value store and clears the keys from the prefix up to the prefix with
  its last byte raised (the records under it when that byte is below 0xff).
- `src/map_key.rs`: `MapKey`, how map keys are stored as bytes and read
  back (for byte strings and big-endian `u64`).
- `src/storage.rs`, `src/mock.rs`: the key-value store interface and an
  in-memory store kept sorted by key.
- `src/genesis.rs`: `GenesisBuilder`, which collects the messages a chain
  runs at genesis and puts code uploads first.
- `src/account.rs`: `TestAccount`, a secp256k1 key pair that signs
  transactions.
- `app/`: reading code from files, JSON serialization, and the host
  interfaces (`Db`, `Vm`).
