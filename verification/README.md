# phyzzy

A soft-body model made of masses connected by springs.

- `src/` is the verified library. It keeps the topology of a model: masses,
  springs between pairs of masses, collision layers, and the pairing of masses
  that collide. Physical quantities travel through it as opaque payloads.
  Every operation keeps the model valid (each spring joins two distinct
  existing masses; no layer lists an index twice), and the laws of removal,
  insertion and collision reporting are proved in `src/laws.rs`,
  `src/layer.rs` and `src/collide.rs`.
- `app/` holds the floating-point physics (vectors, forces, integration,
  actuators, boundaries) and the JSON model loader, built on the library.
- `tests/` exercises the library on concrete models.
