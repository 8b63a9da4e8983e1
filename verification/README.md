# trojan_ui

The logic of a desktop client for the trojan proxy protocol, verified with Verus.

- `src/url.rs` — the share-link grammar `trojan://password@domain:port?query#remarks`,
  its leftmost-first match as a specification, a verified parser, and the laws
  relating links to their pieces.
- `src/config.rs` — configuration records, building one from a share link, and the
  names and directory of configuration files; it calls `chrono`, through one
  trusted wrapper, to stamp the names of saved files.
- `src/paths.rs` — search-path splitting, path joining, executable lookup and
  extension filtering on plain strings.
- `src/proxy.rs` — the proxy worker's state machine.
- `src/outbound.rs` — the decisions of the outbound side of a client connection.
- `app/` — the command-line front end: files, environment, the clock, JSON, and the proxy
  runtime (`trojan_rust`, `tokio`).
