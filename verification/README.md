# claw-state

State of the claw runtime: a router scoreboard, an exact-match cache of
responses, facts to remember, and a client for a memory service.

- `src/` is the library. Its functions are verified by Verus against the
  contracts that they carry. Statements on the database, digests, the clock and
  a few functions of the standard library are trusted: each is a small item with
  a comment that says what is claimed of which outside function.
- `tests/` runs the library with the real database.
- `app/` is ordinary Rust around the library: the scoreboard as a JSON file, the
  store as a database file, and the memory service over HTTP.

| Module | What it holds |
|---|---|
| `binary64` | binary64 numbers by their bits: comparison, rounding, the few operations that routing needs |
| `routing` | prompt classes, and the policy that picks a candidate: warm start, explore, exploit |
| `eval_router` | the scoreboard in memory, with decay |
| `rng` | the pseudo-random source for exploration |
| `database` | the tables, and one function per SQL statement |
| `store` | the store that owns the database, and its schema version |
| `scoreboard`, `cache`, `memory` | handles on the tables of a store |
| `embedding` | vectors of texts |
| `memory_client` | the memory service: requests, and what is made of answers |
| `error`, `text`, `clock` | errors, texts, the system clock |

What is proved of the rows in the tables of a store holds while its database is
reached through the one connection that the store owns
(`Database::is_exclusive`); a store in memory is made that way. What the store
makes of the answer to a query, an error included, is proved of every store.
