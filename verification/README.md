# cairn

Local-first memory for AI agents: a temporal store of (subject, predicate,
object) facts with validity windows, graph traversal, ranked recall,
forgetting by decay, pattern-based extraction, device sync and an MCP tool
dispatcher. The library under `src/` is verified with Verus; every public
function states its result in its contract, over the clock reading or the
fresh id where the result depends on them, and the laws of the store
(contradiction closes instead of deleting, facts at 0.8 confidence or above
are never forgotten, sync resolution is a strict total order, an export
imports back into an empty store unchanged, ...) are proof functions named
`law_*`.

Layout:

- `src/text.rs`: characters, ordering, substring search, splitting, joining.
- `src/clock.rs`: vector clocks and their merge.
- `src/fact.rs`: the fact record; confidences are held in millionths.
- `src/store.rs`: the fact table, newest first, and its operations.
- `src/traverse.rs`, `src/order.rs`, `src/query.rs`: traversal and recall.
- `src/forget.rs`: forgetting decisions.
- `src/extract.rs`: extraction rules over `regex` matches.
- `src/sync.rs`: bundles and conflict resolution.
- `src/mcp.rs`: tool handlers, dispatch and JSON-RPC method routing.
- `src/time.rs`: the clock and fresh ids (`chrono`, `uuid`).
- `app/`: the `cairn` command: SQLite persistence, JSON, the decay score,
  the CLI and the stdio MCP server.
