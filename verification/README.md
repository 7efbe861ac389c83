# limiter-core

A token-bucket rate limiter's core, verified with Verus.

- `src/consistent_hash.rs`: the hash ring that routes keys to shards, with its
  laws (adding a node moves keys only to it; removing one moves only its keys).
- `src/storage.rs`: the bucket and limit records, with the read-back law.
- `src/text.rs`: decimal numbers, `str::parse` syntax for integers and floats,
  and field splitting.
- `src/bucket.rs`, `src/service.rs`, `src/error.rs`: the integer checks of the
  bucket, the service's request logic, and the error type.
- `app/`: the floating-point bucket, configuration, the Redis operations and
  the command line.
