# SNIrelay

A layer-4 reverse proxy that reads the TLS SNI hostname or the HTTP `Host`
header, chooses a destination with a static hosts table, or with regex routes
where there is no such table, and forwards raw bytes to the origin through an upstream SOCKS5 or HTTP CONNECT
proxy. TLS is never decrypted.

## Layout

- `src/` is the library, verified with [Verus](https://github.com/verus-lang/verus):
  what is decided and computed, each function with a contract.
  - `sni`: the server name in a ClientHello
  - `connection`: the life of one client connection, as a state machine
  - `listener`: the loop that accepts clients, as a state machine
  - `service`: listener plans, routes, and what a client asks for
  - `proxy_connector`: SOCKS5 and HTTP CONNECT handshakes, as state machines
  - `hosts`: the static hosts table
  - `domain_limiter`: daily bandwidth and connection limits per domain
  - `config`: the configuration and its rules
  - `metrics`: Prometheus metrics and their labels
  - `limits`: open files and the connection cap
  - `ip`, `pattern`, `keyed`, `text`: addresses, regular expressions, keyed
    lists and text
- `tests/` runs the library on concrete values, with the real `regex` and
  `prometheus` crates.
- `app/` is the program: arguments, files, sockets, signals and logging.

## What is taken on trust

The contracts of the outside functions that the library calls are stated where
they are declared: `pattern` for the `regex` crate, `metrics` for the
`prometheus` crate, `text` for three string functions of the standard library,
and `domain_limiter` for the clock.
