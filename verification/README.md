# quickwit_core

The decisions of a Quickwit node, verified with Verus.

- `src/`: the library. Each function states in its contract what it returns; public proof functions
  state what relates several of them.
  - `text`: decimal numbers, and lists with separators.
  - `address`, `member`: addresses, members and the identifiers under which they gossip.
  - `service`: the services of a node and how it advertises them.
  - `gossip`: what `chitchat` knows of the nodes.
  - `cluster`: joining a cluster, following its members, finding who serves what.
  - `schema`: what a `tantivy` schema says of its fields.
  - `warmup`: what has to be loaded before a search can run.
  - `footer`: where the footer of a split comes from.
  - `leaf`: the outcome of a search over many splits.
- `tests/`: tests of the library, with `chitchat`, `tantivy` and `itertools` behind it.
- `app/`: the gossip server, the downloads and the threads around the library.

What is believed without proof is marked `#[verifier::external_body]`: a few functions of
`chitchat`, `tantivy` and `itertools`, each with a comment that says what is claimed of it.
