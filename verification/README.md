# core_engine

A spiking neural network engine whose structural core is verified with Verus.

* `src/` — the verified library. Every single-precision quantity
  (potentials, thresholds, weights, rewards, learning parameters) is held
  by its IEEE-754 bit pattern in a `u32`; the library stores, moves and
  compares these patterns but does no floating-point arithmetic.
  * `brain` — the network (`FastBrain`): struct-of-arrays neuron state and
    CSR synapses; adding, splitting and pruning synapses, inserting hidden
    neurons, the spike bitmask. Contracts are stated over the rows of the
    CSR layout.
  * `genesis` — the deterministic initial topology (a linear congruential
    generator seeded with 42), grouped into CSR form.
  * `state` — the persistent part of a network and the round trip to it.
  * `arena` — the circular replay buffer.
  * `selection` — picking the fittest candidate from fitness scores.
  * `gpu` — launch geometry and device arrays for batched evaluation.
  * `telemetry` — the lock-free spike bitmask cell.
* `app/` — the floating-point dynamics (`tick`, initial weights), JSON and
  file persistence, the parallel evolutionary loop, the telemetry thread and
  the Python bindings.
* `tests/` — tests of the library, including a comparison of the generated
  topology and weights with a dense single-precision construction.
