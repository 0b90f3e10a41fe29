# rprotobuf

Push-based Protocol Buffers parser and writer, verified with Verus.

- `Parser::receive` parses as many complete fields as the input holds and
  reports them to its handler; an incomplete field stays in the input for the
  next call. Its contract states, through `parse_model::spec_receive`, the
  callbacks it makes, how many bytes it takes, the embedded messages left open
  and how it ends. The parser talks to an `EventSink`: every `Handler` is one,
  and a verified sink that records its calls (`recorded`, `calls`) or fixes
  its `is_message` answers (`decided`, `answer`) has the contract speak of
  those calls and answers themselves.
- `Writer` encodes varints, zigzag integers, fixed-width values, tags and
  length-delimited fields into any `ByteSink`; `Buffer` is the in-memory sink.
- `laws` proves that what the writer writes, the parser reads back (flat
  fields and embedded messages), that a parse interrupted by underflow and
  resumed gives the same calls as one parse, and the varint, fixed-width,
  zigzag and UTF-8 round trips, a resumed parse at a field boundary, and the
  count of open messages that `close` checks.

Layout: `src/` is the verified library, `tests/` its tests, and `app/` the
standard-library glue (a sink over `std::io::Write`, printable error types,
and the floating-point helpers, which stay unverified).
