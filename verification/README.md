# voidveil

A local privacy proxy for AI APIs. Before a request leaves the machine, its
`messages`, `system` prompt and `prompt` are anonymised: every string in them, as
reached through message objects, their `content` and `text` members and arrays of
parts, has its names, e-mail addresses, IP addresses, secrets and other entities
replaced by tokens such as `[PERSON_0001]`. Telemetry headers are stripped. In the
reply, the strings under `content`, `text`, `delta`, `value`, `choices` and `message`
are rehydrated, the latest-issued token first. The token map lives in memory only.

Layout:

- `src/` is the verified library (Verus): the token map (`token_map`, `token`), the
  anonymiser and its patterns (`anonymise`, `pattern`), JSON values (`json`), the
  proxy's decisions around each upstream call (`proxy`), the HTTP replies and
  configuration values (`server`), the certificate logic (`tls`), text helpers
  (`text`), and the proof that rehydration gives back what anonymisation was given
  (`round_trip`).
- `app/` is the program around it: the HTTP and HTTPS listeners, the upstream
  client, file access for the certificate, and conversion to and from
  `serde_json::Value`.
- `tests/` exercises the library on concrete values.
