# servicecache

Fast disposable services for tests: server software runs as a WASIX guest, is
initialized once and frozen, and every request is answered with a fork of the
frozen template.

- `src/` is the library: what is decided, parsed, counted and said. Every
  function is verified with Verus; what is believed of outside crates and of std
  stands in the few functions marked `external_body` and in one
  `assume_specification`, of `String::push`, each with what it claims above it.
- `app/` is the program around it: arguments, files, sockets, processes, the
  HTTP server and the Wasmer runtime. It carries out what the library decides
  and hands back what came of it. The runtime is Wasmer with a patch series, so
  it builds against that checkout rather than against the published crates.
- `tests/` runs the library.

| Module | What it holds |
|---|---|
| `manifest`, `discovery` | service packages: their manifests, contents and versions |
| `host` | a host's life: requests, the readiness probe, freezing, forking, zero pages |
| `manager` | the manager's side of a host's control channel |
| `serve` | the HTTP API: requests, recipes, leases, templates |
| `cli`, `logging`, `directives`, `cache`, `runtime` | the command line, logs, compiled modules, plain runs |
| `text`, `bytes`, `path`, `pattern`, `digest`, `sort` | what the others are built from |

The laws of the library are the public proof functions whose names begin with
`law_`.
