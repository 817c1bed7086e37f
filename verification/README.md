# serde_envfile

A serde data format for `.env` files: one `KEY=value` entry per line, blank lines and
`#` comments skipped, values quoted and escaped the way a shell reads them.

- `src/` is the verified library (Verus): line and entry reading (`de`), value
  checking and writing (`ser`), decimal integers (`numbers`), errors and their
  messages (`error`), and the laws that tie reading to writing (`laws`), among them
  that a document written from plain entries reads back as the same entries.
- `app/` puts serde's `Serializer`/`Deserializer` traits, `from_str`, `to_string`,
  the writers and the floating-point cases on top of it.
- `tests/` runs the library on concrete inputs.
