# winterfell

Building blocks of a distributed STARK prover and verifier, and of the object porter that
moves data between the prover's nodes, written in Verus with their behaviour stated in
contracts and proved.

Library (`src/`):

* `field` — arithmetic in the prime field with modulus 2^128 - 45 * 2^40 + 1.
* `hash`, `hash_fn_serialization` — BLAKE3 and SHA3-256 digests and their one-byte codes.
* `options`, `channel` — proof options, the prover's commitments, and proof-of-work grinding
  of the query seed.
* `trace` — execution traces, their filling by closures, and trace fragments.
* `evaluator`, `constraints`, `poly` — constraint domains, composition degrees, assertion
  constraints and merging of transition constraint evaluations.
* `positions` — query positions: constraint-tree leaves, partitions of the distributed FRI
  prover and the translation between global and worker-local positions.
* `composition` — the prover's DEEP composition of the trace polynomials, with synthetic
  division by the out-of-domain points.
* `verification` — the verifier's context, query seed check, DEEP composition, reading of
  queried values, verification of the queries and the FRI remainder check.
* `fri` — checking and folding the queried FRI layers, the prover's query answers and
  remainder layout, and the completeness of the check for honestly folded layers.
* `worker` — the folding state of a worker of the distributed FRI prover, and the
  degree-respecting projection of a layer.
* `folding` — the algebra of a folding step: a polynomial split into four parts by the fourth
  power of its argument, and the coefficients of the folded polynomial.
* `stream` — the porter's request wire format, object headers, bookkeeping of objects in
  transit, errors and server decisions.

Program (`app/`): the porter server, which performs the network and store I/O around the
library.

Not part of the library: the steps of proof generation and of proof reading that rest on
FFT-based polynomial evaluation and interpolation, Merkle tree commitments and the proof's
serialized form (trace extension and commitment, constraint evaluation tables, the full
proof generation procedure, the actor-based FRI prover). The library's functions take the
values those steps produce as arguments.
