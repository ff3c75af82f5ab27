//! River: the rules of a reverse proxy, verified.

pub mod acme;
pub mod config;
pub mod listeners;
pub mod lists;
pub mod net;
pub mod proxy;
pub mod text;
pub mod text_map;
pub mod tls;
pub mod wire;
