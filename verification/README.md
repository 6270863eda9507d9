# cubic

The CUBIC congestion controller of a TCP socket, verified with Verus.

- `cubic.rs`: the controller, `Cubic`, and its events.
- `state.rs`: the mathematical state and what each event makes of it.
- `laws.rs`: what holds across events.
- `time.rs`: points in time.
- `cube_root.rs`: the cube root by Newton's method.
- `binary64.rs`: IEEE 754 binary64 arithmetic on integers, correctly rounded.
- `value.rs`, `rounding.rs`: what binary64 numbers denote, and rounding to nearest even.
- `order.rs`, `bounds.rs`: sizes of results and monotonicity of rounding.
- `nearness.rs`: how near rounded results are, and how errors add up.
- `growth.rs`: the cubic curve never falls and meets the plateau at the time K.
- `shape.rs`: the curve is the cubic one; how near it comes to the plateau, and how fast it grows.
- `loss.rs`: how far a loss cuts the window and the plateau.
- `accuracy.rs`, `root.rs`, `reach.rs`: the cube root is accurate, and of every positive number it is
  a positive number.
- `plateau.rs`: K is accurate, and the curve starts at the window that a loss leaves.

No part of the library is trusted: there are no external bodies and no assumed specifications.
