# rgg

A gossiping broadcast node for the Maelstrom workbench, with its logic
verified by Verus.

- `src/numbers.rs`: the store of learnt numbers (no repeats, learning order
  kept) and the laws of learning: idempotence, growth, union, convergence, and the
  same count and sum for the same set of numbers in any order.
- `src/topology.rs`: the cluster seen from one node, the grid layout, and the
  random choice of gossip targets.
- `src/messages.rs`: the messages nodes and clients exchange.
- `src/node.rs`: the node's reaction to each packet, as a `Step` of messages
  to send and an optional fault; laws such as "a read after a broadcast holds
  the number".
- `app/`: the program around the library: stdin/stdout, JSON, the tokio
  tasks and the heartbeat timer.
