# url

Parsing and serialising the parts of a URL, verified with Verus.

- `src/hex.rs` — hexadecimal digits: reading them, writing them upper-case.
- `src/percent.rs` — percent-encoding through an encode set, `%XY` escapes,
  percent-decoding, and the proof that decoding undoes encoding.
- `src/ipv6_grammar.rs` — the text form of IPv6 addresses as a grammar
  (`ipv6_pieces`), with the lemmas about it.
- `src/ipv6.rs` — `Ipv6Address`: the reader (proved against the grammar),
  the longest-zero-run search, and the writer (`ipv6_text`).
- `src/ipv6_round_trip.rs` — reading back what the writer writes.
- `src/host.rs` — `Host`: domains and bracketed IPv6 addresses, parsing
  and serialising, and reading back a parsed host's text.
- `src/record.rs` — `Url` and its parts, serialisation and accessors.
- `src/text.rs` — appending a character to a `String`.
- `app/lib.rs` — the parser settings (`UrlParser`), which hold an encoding
  of the `encoding` crate and an error-handler function pointer.
