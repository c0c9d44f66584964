# ip_proxy_pool

A SOCKS5 and HTTP proxy that spreads its local ports over a rotating pool of upstream SOCKS5
proxies, with the decisions it takes verified in Verus.

- `src/` is the verified library. It does no input or output: every job is a sequence of steps,
  each of which says what to do next, and the function that takes the outcome gives the step
  after it.
  - `pool.rs`: which upstream proxy serves which port, when it is due to be replaced, the reserve.
  - `rotation.rs`: replacing dead addresses, fetching new ones, checking those in use.
  - `socks5.rs`: sessions of SOCKS5 clients. `handshake.rs`: asking an upstream proxy to connect.
  - `http.rs`: sessions of HTTP clients, tunnels and plain requests.
  - `admin.rs`, `bypass.rs`: the hosts that are reached directly, and the interface to them.
  - `text.rs`, `ipv4.rs`: texts, numbers and addresses.
- `app/` is the program: it listens, connects, waits, and runs the steps.
- `tests/` runs the library on concrete values.

What holds of the library as a whole stands in the proof functions whose names start with `law_`.

The clock is read through `std::time::Instant`. Of a reading nothing is claimed; of two readings,
that the span between them is a function of the two. A function that reads the clock says what it
does for the reading it got. Each public one has a counterpart, ending in `_at`, that is handed the
reading, or the ages that follow from it.
