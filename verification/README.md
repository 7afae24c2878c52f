# autonomi_webrtc

Content on the Autonomi network, fetched by a browser through an endpoint that nobody has to
trust.

A piece of content is self-encrypted into chunks. Each chunk is stored under the BLAKE3 hash of
its bytes, and so is the data map that says which chunks make up the content. A browser asks an
endpoint for the bytes at an address, checks every answer against the address, and decrypts what
it was given. The endpoint can refuse to serve; it cannot lie.

## Layout

- `src/` is the library, verified with Verus.
  - `address`: content addresses and their hex form.
  - `data_map`, `cipher`: data maps, and self-encryption behind the `self_encryption` crate.
  - `store`: chunks by address.
  - `progress`, `retrieval`: the state machine of a retrieval. `Progress` is told the outcome of
    every check and decryption; `Retrieval` makes them.
  - `source`: an in-memory source made from local content.
  - `protocol`, `endpoint`: the request and its answer on a stream, and what an endpoint decides.
  - `identity`: the node identity and the certificate, which must survive restarts.
  - `laws`: what holds of several functions together, among it that a source gives back the
    content it was made from, up to 658415763456 bytes, and that a retrieval at its address gives
    that content whoever serves it.
- `tests/` runs the library, with the outside crates linked.
- `app/` is the proxy program and the bindings for JavaScript: sockets, files, the command line.

## What is not proved

The functions marked `#[verifier::external_body]` call `blake3`, `rmp_serde`, `self_encryption`,
`libp2p` and `str::trim`. Their contracts are believed, and each says in its documentation what it claims.
That BLAKE3 has no collisions is nowhere believed: a law that needs it for some chunks has it as
a hypothesis.

## Building

`self_encryption` takes its chunk size from the environment variable `MAX_CHUNK_SIZE` where it is
compiled. Leave it unset, or set it to 4190208: another chunk size gives the same content other
addresses, and the library does not compile with it.
