//! An embeddable web server core: URL model, route matching, HTTP/1.1 codec
//! and WebSocket framing.
pub mod text;
pub mod url;
pub mod header;
pub mod http;
pub mod route;
pub mod ws;
pub mod service;
pub mod cookie;
pub mod pool;
