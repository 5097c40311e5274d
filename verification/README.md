# congestion

TCP congestion controllers, Reno and CUBIC, verified with Verus.

A controller holds the congestion window of one connection. It is told of acknowledgements,
duplicate acknowledgements, losses, timeouts and transmissions, and answers how many bytes may be
in flight.

- `src/reno.rs` and `src/cubic.rs`: the controllers. Each event has a spec function from state to
  state, and the contract of the method is that function.
- `src/binary64/`: binary64 arithmetic in integers, for the curve that CUBIC follows. Every
  operation is proved to be the exact rational operation rounded once, to nearest, ties to even.
- `src/cube_root.rs`: the cube root that places the curve.
- `src/laws/`: what holds of the controllers over whole histories of events, the shape of the
  curve, and how near the cube root comes to the real one.
- `src/window.rs`, `src/time.rs`, `src/rtt.rs`, `src/dyadic.rs`: window bounds, points in time, the
  round-trip time, powers of two.
- `tests/`: scenarios, and comparisons of the arithmetic with the floats of the machine.
