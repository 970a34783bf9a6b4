# codex_switch

Codex Switch runs a local HTTP proxy in front of Codex and routes each Codex
session to an upstream profile (base URL and headers). A desktop front end
manages the profiles, binds sessions to profiles, tags sessions, and points
Codex's own `config.toml` at the proxy and back.

The library (`src/`) is written in Verus. Every function in it carries a
contract that Verus proves, except the calls into outside code in `outside`
(and `text::string_of`), whose contracts Verus takes as given; three of
those convert values and state nothing:

| Module | What it holds |
| --- | --- |
| `text`, `strmap` | string helpers with exact specifications; an ordered string-keyed map |
| `config` | the configuration, its validation, and routing a session to a profile |
| `headers`, `proxy` | finding a request's session id (headers first, then the body); the headers sent upstream and back; the proxy's decision per request |
| `codex_toml` | reading and rewriting the `base_url` of a provider in Codex's `config.toml` |
| `takeover` | backup names, the takeover and restore decisions, the takeover marker |
| `sessions`, `doc` | session tags, titles, and what is read from Codex's session files |
| `desktop`, `dashboard` | the desktop commands' changes to the configuration; the dashboard and tray texts |
| `outside` | the calls into `reqwest`, `serde_json`, `toml` and `core`, with the contracts the library relies on |

`app/` is the program around it: the axum server that streams requests
through the proxy, file and database access, and the command line.
`tests/` exercises the library on concrete values.
