# mcp_gateway

An MCP gateway: it connects to MCP backend servers (spawned over stdio or
reached over Streamable HTTP) and offers all their tools through one MCP
endpoint and a REST API.

The decisions are a library verified with Verus (`src/`):

- `config` — configuration types and their documented defaults;
- `name_map` — a name-keyed map that keeps insertion order;
- `pool` — the backend pool: configured and connected backends, routing of
  tool calls (the most recently connected backend wins a shared tool name),
  per-backend and full tool listings (sorted by name);
- `routes` — the health report, webhook routing and the API-key check;
- `error` — error messages and the HTTP status derived from them;
- `text` — character-level comparison and search.

`app/` is the server around it: reading the TOML file, spawning and
connecting backends, performing tool calls, the MCP proxy and the axum
routes.
