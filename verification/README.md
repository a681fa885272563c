# mrv_executor

A verified ordering layer behind a DAG-based consensus.

The consensus commits slices of a DAG of certificates. Which vertices a slice holds, and the order
of the slices, is left as committed. Within a slice the layer derives an order from the committed
prefix alone: an ancestor precedes its descendants; where two vertices are causally unrelated and
both are widely seen, the one that clearly more creators have seen, in some round of a fixed window,
comes first; what is left open is decided by round, creator and digest.

- `src/` is the library, verified with Verus. Contracts speak of mathematical models; the modules
  whose names end in `laws` state what holds over several calls.
- `tests/` runs the library.
- `app/` is the program around it: the task that connects the layer to the consensus, and a
  benchmark client.

SHA-512 hashing, byte buffers and random numbers come from outside crates. The functions that call
them are marked `#[verifier::external_body]`, and say in their comments what is taken on trust.
