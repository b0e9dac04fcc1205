# wordbush

A word game served over TCP, with its logic verified by Verus.

- `src/radix.rs` — the radix tree of words: `Radix::new`, `insert`, `lookup`,
  and their value `RadixView`, with `spec_insert` and `spec_lookup` stating
  exactly what each does.
- `src/radix_laws.rs` — what holds of the tree across calls: insertion adds
  exactly its word, lookup finds stored lowercase words, insertion keeps the
  tree well formed and every word-less node with two children, two
  insertions commute, a list of lowercase ASCII words is all found.
- `src/dictionary.rs` — loading a dictionary of lines into a tree.
- `src/game.rs` — the game as a state machine: a step takes the player's line
  and gives the next state and what to tell the player.
- `src/protocol.rs` — framing and reading the messages of the client protocol.
- `src/text.rs` — string helpers, and the calls into the standard library
  whose results are trusted.
- `app/main.rs` — the server and the client: files, terminal and sockets.
