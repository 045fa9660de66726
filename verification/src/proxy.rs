//! The outbound forwarder's verified half: assembling a proxy exchange
//! from the backend's reply bytes, and the balancing-mode dispatch. The
//! caller opens the TCP connection, writes the request's raw bytes, reads
//! the reply, and hands the bytes in here.
use crate::request::Request;
use crate::response::{resp_decoded, Response};
use vstd::prelude::*;

verus! {

/// How a backend is picked from a pool. The three modes are placeholders
/// for future pool-selection logic: today each routes to the single
/// supplied backend.
#[allow(non_camel_case_types)]
#[derive(Debug, Clone, Copy, PartialEq, Eq, Structural)]
pub enum BalancingMode {
    /// weight mode
    WEIGHT,
    /// random mode
    RANDOM,
    /// polling mode
    POLLING,
}

/// One forwarded exchange: the request sent and the response the backend
/// answered.
#[derive(Debug)]
pub struct Proxy {
    pub request: Request,
    pub response: Response,
}

impl Proxy {
    /// The backend a balancing mode picks: with a single supplied backend,
    /// every mode picks it.
    pub fn balance_target<'a>(host: &'a str, port: &'a str, mode: &BalancingMode) -> (r: (
        &'a str,
        &'a str,
    ))
        ensures
            r.0 == host,
            r.1 == port,
    {
        match mode {
            BalancingMode::WEIGHT => (host, port),
            BalancingMode::RANDOM => (host, port),
            BalancingMode::POLLING => (host, port),
        }
    }

    /// Builds the exchange from the backend's reply. Fails exactly when
    /// the reply does not open with a response start line; on success the
    /// response is the decoded reply.
    pub fn assemble(request: Request, reply: &[u8]) -> (r: Result<Proxy, String>)
        ensures
            r is Ok <==> crate::grammar::valid_response_line(
                crate::request::first_line(reply@),
            ),
            r is Ok ==> r->Ok_0.request == request && resp_decoded(r->Ok_0.response, reply@),
            r is Err ==> r->Err_0@ == Seq::<char>::empty(),
    {
        match Response::decode(reply) {
            Ok(response) => Ok(Proxy { request, response }),
            Err(_) => Err(String::new()),
        }
    }
}

} // verus!
