# simple_proxy

A small forward proxy for HTTP and HTTPS clients. It takes plain requests, requests through
TLS, and `CONNECT` tunnels.

- `src/` decides: it reads requests, URLs and the command line, says what is sent where, and
  in which order a connection dials, writes, reads and closes. It is verified with Verus.
  `src/laws.rs` states what holds of requests on their way through. What is believed without
  proof is what `src/unicode.rs` says of `String::from_utf8_lossy`, `str::to_lowercase` and
  `String::push`, and what `src/tls.rs` says of `Identity::from_pkcs8` and `TlsAcceptor::new` of
  `native_tls`.
- `app/` acts: sockets, threads, files, logging and the TLS handshake.
- `tests/` runs the library.
