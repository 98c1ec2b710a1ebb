# neuron_wire

The Neuron Wire Protocol (NWP) — framing, flat message bodies, DHT routing,
gossip of Hebbian updates, node identity, audit log, the DHT convergence
simulators and the browser demo's peer bookkeeping — as a Verus library
whose behaviour is stated in contracts and proved.

Layout:

- `src/` — the verified library. Each module states its data model with
  spec functions and views, and its operations with `requires` / `ensures`.
  Laws that relate several operations stand as public proof functions
  (`lemma_*`), for instance that a frame built by `header::build_frame`
  parses back, that gossip packets and node records read back as written,
  that an audit log whose chain is intact verifies and one with any
  entry's stored hash overwritten does not, that the routing table never holds a node twice nor the local node,
  and that an apoptosis sweep prunes exactly the entries it should.
  Calls into `crc32fast`, `sha2`, `ed25519-dalek` and `rand` stand behind
  small trusted wrappers whose doc comments say what is assumed of them.
- `tests/` — executable tests of the library.
- `app/` — the runtime shell: sockets, files, environment, threads, clocks,
  configuration files (serde/toml), and the floating-point learning code.
  It calls the library with plain values.
