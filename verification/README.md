# enigma-relay

A store-and-forward relay for Enigma nodes: senders push encrypted message
chunks for a recipient, the recipient pulls them page by page in arrival
order and acknowledges what it has received. Queues have per-recipient quotas
by message count and bytes, messages expire after a TTL and are garbage
collected, and pushes and acknowledgements are idempotent.

Layout:

- `src/` is the library, verified with Verus. `store_mem` is the in-memory
  store and the model of a recipient's queue that the contracts speak of;
  `paging` states what a walk of pages delivers and what garbage collection
  leaves behind; `store` holds the queue
  types, the cursor format and the per-step decisions that every backend
  shares; `store_sled` the key layout of the persistent backend and `sled_books`
  its acknowledgement and garbage-collection bookkeeping; `server` the
  checks and replies of the HTTP handlers; `config`, `error`, `metrics`,
  `model`, `tls` and `ttl` the rest. `codec` and `tls` wrap the calls into
  `base64`, `uuid` and `rustls-pemfile`, whose contracts are trusted.
- `app/` is the HTTP server (actix-web), the sled backend, the TOML
  configuration loader, the garbage-collection task and the rate limiter,
  built on the library.
- `tests/` runs the library on concrete inputs.
