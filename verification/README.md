# dsh_desktop

The DeepSeek Harness desktop shell wraps the `dsh web` page in a macOS app.
This crate holds its logic, verified with Verus; `app/` is the Tauri program
around it, which talks to the machine and the window.

`src/`:

- `text.rs`: whitespace, lines, splitting, trimming, decimal numbers and
  substitution, with the meaning the standard library gives its string methods.
- `instance.rs`: the process table from `ps`, recognising `dsh web`, the port
  that `lsof` reports, and the list of running instances (one per port,
  ascending).
- `env_detect.rs`: candidate `bin` directories (nvm versions newest first),
  the detection of `dsh` and `npm` as a question-and-answer state machine, the
  `PATH` of child processes, version output.
- `cookie_auth.rs`: the signing secret from the credentials record and the
  self-signed session cookie (SHA-256, HMAC-SHA256, URL-safe base64 and JSON
  escaping come from `sha2`, `hmac`, `base64` and `serde_json`).
- `launcher.rs`: starting our own `dsh web` and reading its address.
- `orchestrator.rs`: the start-up sequence as a state machine.
- `menu.rs`: menu texts by language and the update check as a state machine.

Each state machine's `step` takes the outcome of the last request and returns
what to show and what to do next; the laws beside them state what every run
keeps (a page opens only after the cookie was accepted, our own `dsh` starts
only when none runs, the app restarts only after a successful update, ...).
