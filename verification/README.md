# study_app

The rules of a local-first study app — a spatial canvas crossed with a
spaced-repetition system — as a Verus-verified library, with the storage
around it.

- `src/` is the library. Every function there carries a contract that Verus
  proves: the derived knowledge state of a note (`note_state`), the events
  recorded on notes, questions, topics, tags, assets and boards (`repo/*`),
  the task index and task ticking over a note's JSON document and its
  rendered HTML (`document`, `repo/derived`, `repo/html_ticks`), the interleaved and capped review queue (`review`,
  `repo/review`), and the orders lists are kept in (`order`). The public
  `law_*` proof functions state properties that hold across calls.
- `app/` is ordinary Rust: SQLite through `sqlx`, the file system, JSON text
  through `serde_json`, the clock, and review scheduling (which is floating
  point). It reads rows, hands plain values to the library, and writes back
  what the library returns.
- `tests/` runs the library on concrete values.

Instants are nanoseconds since the Unix epoch, UTC.
