//! Core logic of an intranet DNS-over-HTTPS resolver and reverse proxy.

pub mod text;
pub mod table;
pub mod pairs;
pub mod url;
pub mod name;
pub mod number;
pub mod host;
pub mod load;
pub mod base64;
pub mod server;
pub mod range;
