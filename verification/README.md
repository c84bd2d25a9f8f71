# sse

A verified parser for Server-Sent Events, and a client for streams of them.

- `src/` is the library, verified with Verus. `parser` reads bytes, `event` holds events and their
  text form, `stream` decides which items a stream hands out, `request` makes the request that
  opens one, and `text` has what they need of strings. `laws` proves what holds of parsers and
  streams as a whole: how bytes may be cut, what every input leaves behind, that written events are
  read back, and that a stream hands out every event once and in order, with one error in the
  place of each frame that is refused.
- `app/` is the part with HTTP bodies, JSON values and the network.
- `tests/` runs the library on examples.

The library trusts what it states of a few functions of std and of `serde_json`. Each such
statement stands at an `assume_specification` or at a function marked `external_body`, with a
comment that says what is claimed.
