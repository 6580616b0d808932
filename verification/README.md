# typeforge

Terminal typing practice on common words and on real code taken from
permissively licensed GitHub repositories, alone or in multiplayer races
through a small websocket relay.

## Layout

- `src/` — the verified library (Verus). Each public function states its
  behaviour in `requires`/`ensures` over mathematical models, and the
  properties that span several calls are stated and proved as `law_*`
  proof functions.
  - `session` — the typing engine: strict and free mistake modes,
    auto-paired brackets, indentation skipping, editor-style deletion,
    keystroke and progress logs.
  - `syntax`, `snippet`, `comments`, `sources` — turning code found in a
    repository into a practice snippet: the tree-sitter parse tree as a list
    of nodes, the structures worth practising in it, which files and
    licences are used, comment removal, tab expansion, relative indentation
    and size limits.
  - `relay`, `protocol`, `standings` — race rooms: joining, resuming after a
    reconnect, readiness, countdown, progress reports and the results order.
  - `app`, `cli`, `layout`, `analysis`, `stats`, `cache` — menu and screen
    rules, command-line arguments, word wrapping and caret placement, the
    per-line analysis of a finished session, the stats screen and cache
    eviction.
  - `content`, `text` — the content catalogue and text helpers.
- `app/` — the program around the library: terminal drawing, the network
  client and relay server, downloads and the cache directory, the stats
  file, and the floating-point speed figures.
- `tests/` — tests of the library's public functions.

## Running

```
typeforge                 # practice
typeforge join <ROOM>     # join a race room
typeforge relay [ADDRESS] # run a race relay (default 127.0.0.1:8787)
```

The client connects to `ws://127.0.0.1:8787` unless `TYPEFORGE_SERVER` names
another relay.
