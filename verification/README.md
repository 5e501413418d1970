# node_http

The Node `http` and `https` modules for a native PureScript backend, with
their HTTP/1.1 logic verified by Verus.

- `src/` is the verified library. It decides what a message head looks like
  on the wire, how a byte stream is cut into a head and a body, how headers
  are kept, looked up, grouped and written, where a client request goes and
  which headers it sends, what a server answers a request with, and the
  `Date` header's calendar. Every public function states its result in its
  contract, except what the platform's TLS library makes of a certificate
  and key; the laws that relate several functions (a head written by one
  side is read back by the other with the body bytes unchanged, a header
  that is set is read back, a head is sent once, body bytes reach the
  descriptor in write order, a head split across chunks is read whole, ...)
  are public proof functions.
- `src/wire.rs` holds the laws about bytes on the wire: what a peer reads
  back from a flushed request or response.
- `src/tls.rs` builds the TLS acceptor of a secure server through
  `native-tls`.
- `app/` is the runtime glue: streams, sockets, event emitters and the
  foreign-function entry points that the PureScript code calls. It hands the
  library plain values and writes what the library hands back.
- `tests/` runs the library on concrete values.
