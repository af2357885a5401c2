//! An HTTP/2 reverse-proxy engine whose behaviour is stated in contracts.

pub mod backend;
pub mod conn;
pub mod flow;
pub mod frame;
pub mod guard;
pub mod health;
pub mod hpack;
pub mod lb;
pub mod octets;
pub mod pool;
pub mod proxy;
pub mod roster;
pub mod sched;
pub mod service;
pub mod stream;
pub mod text;
pub mod upstream;
