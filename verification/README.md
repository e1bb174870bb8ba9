# bike_fit

The verified core of a bike-fit solver and side-view visualizer. Given a
target bar position and a frame, the solver recommends a stem and a spacer
stack; this library holds the parts of that work on whole numbers, each with
a contract proved by Verus:

- `spacer` — spacer SKUs and catalogs, and the enumeration of every reachable
  spacer-stack height.
- `solver` and `coin_change` — breaking a stack height into SKUs (tallest
  first, with a coin-change search as fallback) and the solver's catalog
  checks.
- `fewest` — the proof that with the default 3, 5, 10 and 20 mm SKUs every
  breakdown uses the fewest spacers.
- `text` — the summaries the UI shows of spacer catalogs, stacks and stem
  catalogs.
- `frame`, `mode`, `style`, `presets`, `share` — wheel sizes, the app mode,
  per-frame background colors, preset key lookups, and decoding of shared-fit
  URL fragments (through the `base64` crate).

`app/` holds the program around it: the floating-point frame geometry and fit
search, the egui UI, persistence, and the web entry point.
