# khttp

HTTP/1.1 message heads, request targets, `date` header lines and the decisions of a connection
server, verified with Verus.

- `src/date.rs`: the `date` header line of a second, over the Gregorian calendar.
- `src/http/`: methods, header fields, statuses and request targets.
- `src/parser/`: request and response heads; `stability.rs` on what follows a head, `parts.rs` on the
  parts of a target, `format.rs` on heads in their written form.
- `src/server/`: accepting connections, reading a head, one exchange, and connections shared by
  workers.
- `app/`: sockets, threads, clocks and the event queue around these.
