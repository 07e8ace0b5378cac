# taktora

A verified library for the taktora diagnostic gateway (`medkit`) and the
cyclic NC motion runtime, written in Verus. Every function in `src/` carries a
`requires`/`ensures` contract proved by Verus; the laws the library keeps
across calls are public proof functions named `law_*`.

## Layout

- `src/` — the verified library.
  - `model`, `provider`, `manifest`, `view`, `gateway`: the diagnostic read
    model, the provider seam with its in-memory mock, the grouping manifest,
    the merged read view with its resolvers, and the worst-wins health rollup.
  - `auth`, `locks`, `triggers`, `cyclic`, `action`, `error`, `routes`,
    `config`: the gateway's vendor extensions and request rules (tokens,
    diagnostic locks with TTL, fault triggers and their replay ring, cyclic
    subscriptions, operations and executions, error envelopes, route and
    family inference, transport settings).
  - `diff`, `civil`: the fault-index diff that feeds the event streams, and
    civil-calendar timestamp rendering.
  - `motion`, `topology`, `schedule`, `scale`, `fieldbus`, `nc`: the motion
    vocabulary, the coupling topology and its tick order, wrap-free position
    feedback, the virtual `CiA` 402 drive image and bus, and the NC cycle's
    token ledger and fault reaction.
  - `assoc`, `sorted`, `bitset`, `text`: shared lemmas and helpers.
- `tests/` — executable tests of the library.
- `app/` — the HTTP surface (axum), configuration and manifest files, and the
  floating-point trajectory core and per-axis NC runtime, built on the library.
