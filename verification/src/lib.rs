//! A verified model of Node's `http` and `https` modules for a native
//! backend: HTTP/1.1 head framing and parsing, header bookkeeping of outgoing
//! messages, request planning from options and URLs, and the server's
//! per-connection decisions.

#![allow(non_snake_case)]

pub mod text;
pub mod head;
pub mod date;
pub mod request;
pub mod outgoing;
pub mod incoming;
pub mod outgoing_message;
pub mod server_response;
pub mod client_request;
pub mod server;
pub mod http;
pub mod https;
pub mod tls;
pub mod wire;
