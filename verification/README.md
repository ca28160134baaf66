# ai_api_pool

A pool of upstream AI API providers behind one OpenAI-compatible endpoint,
with round-robin load balancing, failover past unavailable providers, and
background health checks. The library is written in Verus and its
contracts are proved.

- `src/` — the verified library
  - `config` — configuration types, `${VAR}` references, the listen address
  - `providers` — provider state, upstream URLs and headers, the upstream
    model name, and the pool that holds every provider at a fixed position
  - `load_balancer` — the round-robin rule with its proved properties, the
    load balancer, and what a chat outcome does to a provider
  - `health_check` — the health checker's probes, results and status report
  - `server` — model routing, error answers, header filtering, pool
    assembly, and the server state (pool, load balancers, health checker)
  - `text` — string helpers (search, joining, decimal rendering)
- `app/` — the HTTP server (axum, reqwest, tokio), the `parking_lot` lock
  around the server state, and YAML loading
- `tests/` — tests of the library on concrete values
