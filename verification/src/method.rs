//! The request method as an enum. Every token the request grammar accepts
//! maps to its own variant; anything else maps to `DEFAULT`.
use crate::grammar;
use vstd::prelude::*;
use vstd::string::StringSliceAdditionalSpecFns;

verus! {

#[allow(non_camel_case_types)]
#[derive(Debug, Clone, Copy, PartialEq, Eq, Structural)]
pub enum Method {
    DEFAULT,
    GET,
    POST,
    HEAD,
    PUT,
    DELETE,
    CONNECT,
    OPTIONS,
    TRACE,
}

/// The variant a method token maps to; `DEFAULT` for an unrecognized token.
pub open spec fn method_of_token(t: Seq<u8>) -> Method {
    if t == grammar::tok_get() {
        Method::GET
    } else if t == grammar::tok_post() {
        Method::POST
    } else if t == grammar::tok_head() {
        Method::HEAD
    } else if t == grammar::tok_put() {
        Method::PUT
    } else if t == grammar::tok_delete() {
        Method::DELETE
    } else if t == grammar::tok_connect() {
        Method::CONNECT
    } else if t == grammar::tok_options() {
        Method::OPTIONS
    } else if t == grammar::tok_trace() {
        Method::TRACE
    } else {
        Method::DEFAULT
    }
}

impl Method {
    /// The variant for a method token given as bytes.
    pub fn from_token(t: &[u8]) -> (r: Method)
        ensures
            r == method_of_token(t@),
    {
        let t_get: Vec<u8> = vec![('G' as u8), ('E' as u8), ('T' as u8)];
        let t_head: Vec<u8> = vec![('H' as u8), ('E' as u8), ('A' as u8), ('D' as u8)];
        let t_post: Vec<u8> = vec![('P' as u8), ('O' as u8), ('S' as u8), ('T' as u8)];
        let t_put: Vec<u8> = vec![('P' as u8), ('U' as u8), ('T' as u8)];
        let t_delete: Vec<u8> = vec![
            ('D' as u8),
            ('E' as u8),
            ('L' as u8),
            ('E' as u8),
            ('T' as u8),
            ('E' as u8),
        ];
        let t_connect: Vec<u8> = vec![
            ('C' as u8),
            ('O' as u8),
            ('N' as u8),
            ('N' as u8),
            ('E' as u8),
            ('C' as u8),
            ('T' as u8),
        ];
        let t_options: Vec<u8> = vec![
            ('O' as u8),
            ('P' as u8),
            ('T' as u8),
            ('I' as u8),
            ('O' as u8),
            ('N' as u8),
            ('S' as u8),
        ];
        let t_trace: Vec<u8> = vec![('T' as u8), ('R' as u8), ('A' as u8), ('C' as u8), ('E' as u8)];
        proof {
            assert(t_get@ =~= grammar::tok_get());
            assert(t_head@ =~= grammar::tok_head());
            assert(t_post@ =~= grammar::tok_post());
            assert(t_put@ =~= grammar::tok_put());
            assert(t_delete@ =~= grammar::tok_delete());
            assert(t_connect@ =~= grammar::tok_connect());
            assert(t_options@ =~= grammar::tok_options());
            assert(t_trace@ =~= grammar::tok_trace());
        }
        if crate::ascii::bytes_eq(t, t_get.as_slice()) {
            Method::GET
        } else if crate::ascii::bytes_eq(t, t_post.as_slice()) {
            Method::POST
        } else if crate::ascii::bytes_eq(t, t_head.as_slice()) {
            Method::HEAD
        } else if crate::ascii::bytes_eq(t, t_put.as_slice()) {
            Method::PUT
        } else if crate::ascii::bytes_eq(t, t_delete.as_slice()) {
            Method::DELETE
        } else if crate::ascii::bytes_eq(t, t_connect.as_slice()) {
            Method::CONNECT
        } else if crate::ascii::bytes_eq(t, t_options.as_slice()) {
            Method::OPTIONS
        } else if crate::ascii::bytes_eq(t, t_trace.as_slice()) {
            Method::TRACE
        } else {
            Method::DEFAULT
        }
    }

    /// The variant for a method token given as text.
    pub fn new(m: &str) -> (r: Method)
        ensures
            r == method_of_token(m.spec_bytes()),
    {
        Method::from_token(m.as_bytes())
    }
}

} // verus!
