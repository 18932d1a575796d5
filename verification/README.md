# hearth

A small HTTP/1.1 server. The library (`src/`) is verified with Verus; the
`hearth` command (`app/`) binds the socket, runs one thread per connection,
reads files, and otherwise asks the library what to do.

- `parse.rs`, `request.rs`: the grammar of a request on a byte stream
  (request line, headers, `Content-Length` and chunked bodies, size limits)
  and the parser that follows it, both on complete streams and on the bytes
  received so far.
- `response.rs`: responses and their exact bytes on the wire.
- `router.rs`: exact routes, then static files for `GET`/`HEAD`, then 404.
- `static_files.rs`: percent-decoding, the `..` check (and, where `\` separates
  paths, the root and drive-prefix check), and content types.
- `paths.rs`: path components, the check that a resolved file lies inside the
  served root, and the file a lookup reads (a directory's `index.html`).
- `server.rs`: what a connection sends after each request, when it closes, and
  the request cap of a connection (`Session`).
- `headers.rs`, `text.rs`: the header table and string helpers.
- `parse_laws.rs`: facts about the request grammar that the parser's laws use.

The header table and the route table are ordered vectors with an invariant
(no name, or method and path, twice) rather than hash maps: the order in
which a hash map is walked is chosen per process, so the exact bytes of a
response could not be stated over one, and a table keyed by text is
reasoned about here through the invariant instead.

Paths are text (`&str`): a canonical path that is not valid UTF-8 is not
served. Where `\` separates path components (as on Windows), the `..`
check, the containment check and file extensions split on it too.
