# Firth-penalised Cox regression: verified core

`src/` is a Verus library holding the integer and storage logic of a
Firth-penalised Cox proportional-hazards fitter:

- `matrix` — column-major `Matrix<T>` and `Cube<T>` with read-after-write laws;
- `packed` — `SymmetricMatrix<T>` / `SymmetricCube<T>` storing each ordered pair or
  triple once, in the order of the nested moment loops (proved);
- `moments` — the number of packed risk-set moments and its closed form;
- `patterns` — compaction of repeated design rows into patterns;
- `breslow` — runs of tied event times, event groups, weight propagation, and the
  attribution of tied events in the backward sweep, with event totals preserved;
- `layout` — positions of each block in the arrays handed over by R;
- `conversion`, `fit`, `likelihood` — index conversion, coefficient set-up and the
  choice of likelihood sweep.

`app/` holds the floating-point numerics (likelihood, Newton-Raphson, profile
likelihood, inversion, determinants) and the C entry points, built on the library.
