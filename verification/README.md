# piria

A runtime core for a relational knowledge graph on a single node, verified with
Verus. Entities ("orbs") carry an embedding, relations, a belief, a trust score
and an integrity hash; everything that happens to them is an event in a
hash-chained log.

- `orb`, `vector`, `belief`, `trust`, `relation`, `permissions`, `encoding`: the
  entity and what its hash is taken of.
- `event`, `payload`: events, their hashes and signatures, and the logs.
- `clock`: hybrid logical clocks and vector clocks.
- `orset`, `crdt`: replicas, and how partitions come together again.
- `traversal`, `frontier`, `engine`, `attention`: walks through the graph within a
  budget of attention.
- `entropy`, `clusters`: watching the entropy of all beliefs.
- `storage`, `runtime`: the node, its journal and its snapshots.
- `float`, `fpu`, `numeric`: floating-point numbers by their bit patterns. The
  application supplies the arithmetic.
- `rounding`: what bounded rounding errors do to the lengths of embeddings.
- `error`, `text`: what can go wrong, and how it is told in words.
- `outside`: what is believed of other crates.

`app/` opens the node under `.piria` and says what it holds. It supplies the
machine's arithmetic, the JSON form of events and snapshots, and the files.
