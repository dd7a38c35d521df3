# little_raft

A small implementation of the Raft distributed consensus protocol, whose
protocol logic is verified with Verus.

## Layout

- `src/` is the verified library.
  - `replica.rs` is a Raft replica as a state machine: each step (a message,
    an election timeout, new transitions, a heartbeat, applying committed
    entries) changes the replica and returns the effects that its driver must
    carry out: messages to send and the hooks of the `Cluster` and of the
    `StateMachine` to call. `Replica::handle_event` decides what to do with
    each event its driver hands it. `replica_model.rs` states what every step
    does over mathematical values; the contracts of `replica.rs` refer to it.
  - `laws.rs` proves properties that hold of every step or across steps,
    among them that a demo follower keeps its value the sum of the changes it
    applied and that a demo replica keeps its vote within a term;
    `registrations.rs` proves that a replica registers a transition as
    committed before it registers it as applied.
    `election.rs` and `log_matching.rs` model a cluster of replicas over a
    network that may delay, reorder, duplicate or lose messages, and prove
    that it never has two leaders of one term, that a replica grants its vote
    in a term to one candidate at most, and that entries of the same index
    and term are the same entry wherever they are held. `safety.rs` proves,
    over the same cluster, that an entry a replica counts as committed is in
    the log of every leader of its term or a later one, and that two
    replicas that applied an index applied the same entry there.
  - `message.rs`, `state_machine.rs` and `cluster.rs` hold the messages, the
    transitions and the traits that users implement; `simple_raft.rs` holds the
    interfaces of the first, simpler replica design.
  - `demo/` is the demo cluster that keeps one integer consistent, with its
    replicas (`replicas.rs`, `consensus_module.rs`) and their model, and
    what a status display shows of a replica (`status.rs`).
  - `control.rs` reads the control file of the demo cluster, one complete
    line at a time, and `random.rs`
    draws election timeouts and message drops.
- `app/` runs replicas: the blocking loops with channels and timers, the
  drivers that carry out the effects, and the programs (`app/main.rs`): the
  demo cluster, and with the argument `example` or `consensus` the example
  cluster of the simple design or a cluster of consensus modules.
- `tests/` holds the tests, among them a simulated three-replica cluster.
