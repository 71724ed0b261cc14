# Bay Buddy core

The logic of Bay Buddy, the desktop companion for ThermalTrace, written in
Verus and proved against its contracts. The desktop shell (Tauri commands,
files, sockets, serial ports, HTTP) lives in `app/` and drives the library.

`src/`:

- `text.rs` — characters: Unicode whitespace, `trim`, `split_whitespace`,
  `split`, searching, decimal digits, UTF-8 lengths.
- `url.rs` — percent-encoding and -decoding (with the round-trip law), the
  companion sign-in URL.
- `loopback.rs` — the browser's return to the loopback listener: when the
  HTTP request is complete, where the exchange token is, the reply page.
- `session.rs` — session tokens and how API answers are judged.
- `clock.rs` — the age of an RFC 3339 timestamp (days-from-civil arithmetic
  with every overflow accounted for) and staleness.
- `readings.rs` — which space the buddy shows and what its sensors say.
- `puck.rs` — the puck's serial protocol: bay ids, `key=value` replies, reply
  lines, provisioning answers, the port list.
- `secret.rs` — the puck secret and the HMAC answer to a challenge.
- `claim.rs` — claiming a puck, as a state machine the shell runs.
- `trusted.rs` — the calls into std, `hex`, `hmac`/`sha2` and `rand` whose
  contracts are taken on trust.
