# gateway_mesh

Forwarding of LoRaWAN frames through a mesh of gateways, as a Verus library.

- `src/` is the library. Its functions are verified against their contracts. Trusted
  are only the few that call the `hex` and `rand` crates (in `hexadecimal` and
  `mesh`) and the reading of the machine's clock (in `phy_profile`).
  - `single`, `rounding`, `order`, `exact`, `accuracy`, `share`, `fixed`: IEEE 754
    single precision on integers, and what rounding does to the numbers.
  - `airtime`, `phy_profile`, `link_estimator`, `telemetry`, `metadata`: how long
    frames take, how well links work, and how that is told.
  - `jit_guard`, `scheduler::drr`, `mesh::scheduler`: when frames are sent.
  - `ack_lite`, `packets`, `frames`, `hexadecimal`, `text`, `narrow`, `relay`: what
    is sent.
  - `routing`, `mesh::ctp`: which neighbour leads to a border gateway.
  - `mesh` and its other modules: what becomes of each frame.
- `app/` is the service around it: clocks, locks, tasks and the frame types of the
  packet forwarder.
- `tests/` runs the library, in many places against the machine's own arithmetic.
