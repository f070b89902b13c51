# OxiGate

An L7 reverse proxy and load balancer. What it decides is a library written in Verus: every
function under `src/` is verified against its contract.

- `src/` is the library: configuration and its validation, routing, load balancing, rate limiting,
  address lists, PROXY headers, the headers that are passed on, and the way of a request from its
  admission to its answer. It does no I/O.
- `app/` is the program around it: sockets, TLS, signals, the hyper client and server, metrics, and
  the configuration file.
- `tests/` runs the library.

Values that the program shares between tasks (the route table, the rate limiter) are plain values
in the library, changed through `&mut`; the program holds them behind locks.

What the library takes from other crates stands behind functions whose doc comments name the
outside function and say what is claimed of it: header maps and URIs of `http`, the bucket map of
`dashmap`, the queue of `crossbeam-queue`, buffers of `bytes`, the pointer of `arc-swap`, and PEM
files by `rustls-pemfile`.
