# dronegowski_client

A client of a simulated network of drones, clients and servers, verified with Verus.

The library (`src/`) holds everything that the client decides: what it learns from
floods, the routes it takes, which fragments it sends again and by which way, and how it
puts messages together. It does no input or output. It takes packets and commands and
leaves a list of actions: packets to send, events for the simulation controller, messages
to cut into fragments or to decode, and reports to show.

- `client.rs`: the client. Its contracts relate the states before and after a step.
- `state.rs`: the model of the client, and what each step makes of it.
- `routing.rs`: shortest routes, by breadth-first search.
- `trails.rs`: all ways to a node that pass no node twice.
- `assembler.rs`: putting fragments together, in whatever order they come.
- `packet.rs`, `messages.rs`, `text.rs`, `ids.rs`: what is exchanged.
- `laws.rs`: what holds over several steps.

The program (`app/`) connects a client to channels. Its packets and messages are those of
the crates `wg_2024` and `dronegowski_utils`, which are kept in git repositories of their
own and have to be at hand to build it.
