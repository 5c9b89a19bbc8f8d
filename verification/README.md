# sctp

Protocol logic of the Stream Control Transmission Protocol, verified with Verus.

The library performs no I/O and reads no clock. Callers hand it datagrams, timer expirations and the
time, and take from it the packets to send and the events to act on.

- `association`: associations, their timers and streams, and the loops that move their packets
- `stream`: streams of an association, and what becomes of a message on its way (`stream::delivery`)
- `connection`: operations on streams that may have to wait
- `queue`: the chunks in flight, and the fragments of incoming messages
- `endpoint`: what tells the associations at one address apart
- `param`, `packet`, `chunk`: what travels in packets
- `simulation`: a client and a server driven by hand, on a clock of their own

Public proof functions named `law_..` state what holds across operations: that a message is read as
it was written in whatever order its fragments arrive, that a closed stream takes and yields nothing,
that identifiers lead to the association that they were issued to, and others.

`buf`, `table` and `connection::read_buf` state what is taken on trust of the crates `bytes`,
`fxhash`, `slab` and `tokio`; `util` draws random numbers from `rand`.

`app/` runs the library on asynchronous streams and UDP sockets.
