# telemetry

A JSON log formatter whose formatting logic carries proved contracts: each
event becomes one line holding a JSON object with its time, level, target,
fields and spans, and a typed error field also carries the messages of its
sources (`<field>.chain`).

- `src/text.rs`: key order on character sequences, prefixes, decimal
  numbers, JSON string literals (escaping is done by `serde_json`).
- `src/json.rs`: JSON values, objects kept in ascending key order, and the
  compact JSON text of a value, with the laws on member lists.
- `src/read.rs`: reading written fields back (parsing is done by
  `serde_json`), and the laws that tie the read-back fields to the written ones.
- `src/fields.rs`: what each field record does, the fields of a span or an
  event, and their text (`ErrorJsonFields`).
- `src/event.rs`: one line per event (`ErrorJsonFormat`).
- `src/setup.rs`: decisions taken while telemetry is set up (the Sentry
  environment label and DSN, the OpenTelemetry level).
- `app/`: the `tracing-subscriber` formatter traits, the OpenTelemetry,
  axum, tonic and Sentry set-up, and everything that reads the environment.
