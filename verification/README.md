# http_server

A small HTTP server. The library in `src/` is verified with Verus: it reads requests from bytes,
routes them to handlers by method and target, decides how a request for a file is served, and
writes responses. The program in `app/` is ordinary Rust around it: sockets, files and threads. It is for Unix, and so are the rules on file paths: paths are
bytes, with `/` between the components.

- `src/request.rs`: requests, and how they are read from bytes
- `src/response.rs`: responses, and the bytes that they are sent as
- `src/app.rs`: routes, and how a request finds its handler
- `src/files.rs`, `src/path.rs`: requests for files, and file paths
- `src/method.rs`, `src/pool.rs`, `src/text.rs`, `src/encoding.rs`: what the others build on
- `src/laws.rs`: what holds across the modules
- `src/outside.rs`: what is taken from other crates, with the contracts that are believed of it
