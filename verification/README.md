# lau_chaos_theory

Chaos theory and nonlinear dynamics: Lyapunov exponents, fractals, strange
attractors, bifurcation analysis, symbolic dynamics and agent
unpredictability.

The crate is split in two:

- `src/` is the verified library (Verus). It holds the discrete part of the
  theory: shift spaces and their allowed transitions, the number of distinct
  blocks of a symbolic sequence (the quantity behind topological entropy),
  the transition counts of a symbolic sequence (behind the Shannon entropy
  rate), the scans that locate period doublings, transitions to and from
  chaos and Hopf bifurcations, the classification rules for bifurcations and
  behavioural regimes, Poincaré return maps and grids of escape times. Each
  public function states its result exactly in its contract; the laws of
  shift spaces and of block and transition counts are proof functions.
- `app/` is the numerical side, in ordinary Rust: everything that computes
  with floating-point numbers (integrators, Lyapunov exponents with
  `nalgebra`, fractal dimensions, escape-time tests, entropy logarithms),
  calling the verified library for the decisions and counts, plus
  serializable (`serde`) copies of the library's types.
