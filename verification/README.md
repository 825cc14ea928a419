# sinq

Synchronised event queues, verified with Verus.

A `MasterNodeRecord` keeps the order in which event nodes emitted their
events: an event emitted while another is being handled is recorded directly
after it, any other event last. `update` walks that record once, front to
back, records added on the way included, and at each position invokes the
items listening to its origin, in item order, for the one event there, unless
an item's final record shows that it has handled it already. Its contract
states that walk exactly, visit by visit.

A `QueueHandler` routes events to closures by their key. The events waiting
for it are handed to it with `push_event`; `update_n` handles at most `n` of
them, oldest first, and leaves the rest waiting. `QueuedGraph::update_node`
runs the handler filed for a node.

Layout:

- `src/record.rs`: node IDs, event records and the master record.
- `src/node.rs`: event nodes and how their emissions are recorded.
- `src/graph.rs`: the handlers a node runs for the nodes it listens to.
- `src/handler.rs`: routing events to closures by their key.
- `src/update.rs`: the listener index and the ordered update.
- `app/`: the outgoing event queues and listeners, from reclutch, which hand
  the events they read to the queue handlers.
