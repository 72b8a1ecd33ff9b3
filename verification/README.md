# apicase

apicase runs API test cases that are written as YAML files: it resolves variables, builds and
sends requests, takes outputs for later steps, checks assertions and writes a report as a single
HTML page. It is used from the command line and, as an MCP server, by coding agents.

The library in `src/` is written in Verus. Everything that decides what a case means is there, with
a contract that is proved: reading and writing case files, the order of steps and what a failure
holds back, the requests that are sent, authentication, assertions, redaction, reports, cookies,
workspaces and what the commands print. Properties that span several functions stand beside them
as proof functions whose names begin with `law_`.

What a few outside crates compute (`serde_json`, `serde_yaml`, `cookie_store`, `reqwest`, `regex`,
`md5`, `base64`) is called through small functions marked `external_body`. Their comments say what
is believed of the crate.

| Part | What it holds |
|---|---|
| `src/text.rs`, `table.rs`, `number.rs`, `json.rs`, `yaml.rs`, `util.rs` | texts, tables, numbers, JSON, YAML, dates |
| `src/model.rs`, `case_file.rs`, `round_trip.rs`, `emit.rs` | cases, how they are read and written |
| `src/vars.rs`, `request.rs`, `auth.rs`, `http.rs`, `cookie.rs` | from a step to the message that is sent |
| `src/jsonpath.rs`, `assertion.rs`, `redact.rs` | what is made of a response |
| `src/graph.rs`, `runner.rs`, `run.rs`, `report.rs`, `fields.rs`, `report_json.rs`, `page.rs`, `render.rs` | runs and reports |
| `src/config.rs`, `workspace.rs`, `discover.rs`, `paths.rs`, `agents.rs`, `cli_link.rs` | where things are, and how they are set up |
| `src/check.rs`, `list.rs`, `docs.rs`, `command.rs`, `output.rs`, `console.rs`, `screen.rs`, `style.rs` | commands and their output |
| `tests/` | tests against the public interface |
| `app/` | the program: arguments, files, the network, the MCP server, floating point |

A caller that sends requests drives the library step by step: `CaseRun` says which step comes next,
the caller sends it, and `finish_step` or `fail_step` turn the outcome into a result.
