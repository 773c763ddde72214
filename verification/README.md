# beet

The logic of Beet, a TCP cache server speaking a line protocol
(`SET <key> <value> <ttl-ms>` and `GET <key>`), written in Verus and verified.

- `src/` is the verified library:
  - `buffers`: the `bytes` crate's `Bytes`/`BytesMut` as the library sees them;
  - `text`: UTF-8 checking, Unicode whitespace, splitting into words, decimal numbers;
  - `request`: parsing a command line, and the protocol's round-trip laws;
  - `storage`: one shard (keys to values with an expiry instant), shard choice, eviction;
  - `engine`: answers and the bytes sent back for them;
  - `server`: cutting a connection's input into lines;
  - `config`: the `KEY=VALUE` configuration file.
- `app/` is the program: the Tokio runtime, the TCP listener, the per-shard locks,
  the eviction timer, reading `.env`, and a load generator (`beet cache_bench`).
- `tests/` exercises the library on concrete inputs.

## Collections

- A shard keeps its entries in a `std::collections::HashMap<u64, Vec<Slot>>`:
  the key of the std map is the `DefaultHasher` value of the cache key, and each
  `Vec` holds the entries whose keys hash alike, with distinct keys. A
  `HashMap<Bytes, StorageEntry>` keyed directly by the bytes is not used because
  vstd's `HashMap` specification only describes maps whose key type is known to
  hash and compare deterministically (integers and the like); for `Bytes` keys it
  states nothing, so no read-after-write property could be proved. Integer keys
  are covered, so the std map stays, keyed by the hash.
- The configuration keeps its settings in a `Vec<(String, String)>` with distinct
  keys, for the same reason: vstd states nothing about a `HashMap` with `String`
  keys. A configuration file is small, so a linear lookup costs nothing that matters.
