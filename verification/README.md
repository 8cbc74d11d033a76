# bpsr_meter

The verified core of a combat meter for Blue Protocol: Star Resonance.

- `src/` is the library, verified with Verus:
  - `encounter` — per-entity combat totals; the player and skill windows,
    the encounter-history record and the DPS report (with its party-wide
    idempotency key).
  - `chat` — the bounded chat history, the guild-chat relay decisions and
    their dedupe filter.
  - `modules` — gear-module attributes and the parse of the container
    snapshot; `optimizer` — scoring and the search for the best module
    combinations; `sort` — the stable ranking they share.
  - `tcp_table` — which TCP flows belong to the game (process names, the
    owner-PID TCP table, snapshot freshness, diagnostics).
  - `scene`, `webhook_state` — line/map tracking and the report switch;
    `live` — what the packet loop decides outside those components.
  - `text` — decimal rendering and ASCII case helpers.
- `tests/` exercises the library.
- `app/` is the unverified glue: serde shapes, SQLite history, HTTP relays,
  and the Windows system calls.
