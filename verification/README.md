# nasty-top

A top-like terminal program for bcachefs filesystems, with its logic verified by
Verus: per-device I/O and latency, blocked operations, stalls, target capacity,
and an advisor whose findings carry their evidence.

## Layout

- `src/` is the library. Everything in it is verified.
  - Numbers and texts: `double` (IEEE doubles in integer arithmetic), `digits`,
    `numeral`, `text`, `parse`, `strmap`, `order`, `natural`, `json`.
  - What is read: `sysfs` (the records), `stats`, `status`, `member`,
    `topology`, `collect`.
  - What is derived: `metrics`, `window`, `targets`, `diagnostics`, `analysis`,
    `peers`, `trends`, `advisor`; `soundness`, `histories` and `incidents` hold
    the laws on the diagnostics.
  - The program: `app`, `tick`, `keys`, `tuning`, `schedule`, `interval`.
  - What is shown: `formats`, `rows`, `details`, `theme`.
- `app/` reads files, runs the `bcachefs` tools and draws with ratatui. It makes
  no decision that the library could make.
- `tests/` runs the library on concrete values.

Functions are specified by what they return, over mathematical views of their
arguments. Properties that span several functions are public proof functions
whose names begin with `law_`.

## Trusted

Four calls are believed and not proved: `String::push`, the debug form of a text,
`serde_json::from_str` and `str::to_lowercase`. Each stands behind one item with a
doc comment that says what is claimed of it.
