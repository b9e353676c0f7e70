# magic_mail

The core of a temporary-mail service, verified with Verus: an SMTP receiver
accepts messages for generated addresses on the served domains, reads their
MIME structure, and announces them to live inboxes.

## Layout

- `src/smtp/mod.rs` — the SMTP dialogue of one connection as a transition
  function (`step`) and the `ConnectionHandler` that implements it, with the
  laws of the dialogue (QUIT, RSET, NOOP, delivery, recipients, dot
  transparency).
- `src/smtp/parser.rs` — reading a delivered message: headers, the walk over
  the MIME parts that picks the text and HTML bodies and the attachments, and
  the links from `cid:` references to the attachments.
- `src/smtp/transfer.rs` — quoted-printable and base64 decoding.
- `src/api/` — generating addresses, the records the HTTP API answers with,
  and the events a live inbox is sent first.
- `src/models.rs` — addresses, messages, events, attachments.
- `src/config.rs` — ports, lifetimes, served domains and the database path
  read from configuration text.
- `src/tasks/cleanup.rs` — the cleanup task's settings.
- `src/text.rs` — the character-level string operations the rest relies on.
- `app/` — the server around the library: the SQLite store, the HTTP API
  (axum), the SMTP listener (tokio), notifications and startup.
- `tests/` — tests of the library on concrete values.
