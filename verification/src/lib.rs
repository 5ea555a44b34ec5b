//! SNI-aware transparent relay: the decisions of a layer-4 proxy that reads the
//! SNI of a ClientHello (or the Host header of a plain request), chooses a
//! destination, and tunnels the raw bytes there through a SOCKS5 or HTTP
//! CONNECT proxy. TLS is never terminated.
//!
//! The library holds what is decided and computed, with contracts; sockets,
//! files, clocks and signals are left to the program around it.
//!
//! - [`sni`]: the server name in a ClientHello
//! - [`connection`]: the life of one client connection
//! - [`listener`]: the loop that accepts clients
//! - [`service`]: listener plans, routes, and what a client asks for
//! - [`proxy_connector`]: SOCKS5 and HTTP CONNECT handshakes
//! - [`hosts`]: the static hosts table
//! - [`domain_limiter`]: daily limits per domain
//! - [`config`]: the configuration and its rules
//! - [`metrics`]: Prometheus metrics and their labels
//! - [`limits`]: open files and the connection cap
//! - [`ip`], [`pattern`], [`keyed`], [`text`]: addresses, regular expressions,
//!   keyed lists and text

pub mod config;
pub mod connection;
pub mod domain_limiter;
pub mod hosts;
pub mod ip;
pub mod keyed;
pub mod limits;
pub mod listener;
pub mod metrics;
pub mod pattern;
pub mod proxy_connector;
pub mod service;
pub mod sni;
pub mod text;
