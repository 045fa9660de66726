//! Core of an embeddable HTTP/1.x application server: the request/response
//! codec, the router registry, the default (static-file) responder, the
//! outbound-forwarder assembly step, and the decision logic of the
//! connection engine. All I/O stays outside this crate; callers hand in the
//! bytes read from a socket or a file and write out the bytes produced here.
pub mod ascii;
pub mod config;
pub mod dict;
pub mod engine;
pub mod grammar;
pub mod headers;
pub mod http;
pub mod method;
pub mod proxy;
pub mod request;
pub mod response;
pub mod router;
