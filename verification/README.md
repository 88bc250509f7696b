# gptl-routing

The routing core of an anonymity network, written in Verus: what a client
decides about its circuits, its guards and its leaks, with contracts that are
proved.

## What is here

- `src/circuit/` keeps a pool of circuits: their health, the pool and its
  builder, rotation, and the manager over all of them.
- `src/failover.rs` and `src/transport_bridge.rs` move circuits off relays that
  fail.
- `src/guard_management.rs` selects layered guards by bandwidth and rotates them.
- `src/resource_protection.rs` gives out memory and bandwidth for proofs of work,
  each proof once.
- `src/sybil_defense.rs` and `src/relay_graph.rs` find relays that belong
  together.
- `src/bgp_protection.rs` and `src/rpki_rtr.rs` judge routes and read snapshots
  of route origins.
- `src/dns_protection.rs` and `src/webrtc_protection.rs` keep names and addresses
  from leaking.
- `src/routing.rs` holds the protections together.

The rest of `src/` is what these share: time, text, bytes on the wire, maps by
name, ratios and readings of floating-point numbers, random numbers and digests.

Every function takes the time as an argument. Functions that need outside work,
such as building a circuit over the network, come in two shapes: as steps around
the work, and as a whole with a builder at hand. `app/` runs the steps under
`tokio`, does the arithmetic on floating-point numbers and opens the sockets.

## What is trusted

The digests of `sha2`, the random numbers of `rand`, and two functions of `std`
on text. Each has a doc comment that says what is taken for granted.

## Laws

Proof functions whose names begin with `law_` state what holds across functions:
what a release undoes, what a retired circuit leaves behind, what a snapshot
reads back.
