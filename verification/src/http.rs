//! One request/response exchange: handler dispatch over the router, and the
//! bundle of the parsed request with the response that answers it.
use crate::engine::NetModel;
use crate::request::{req_eq_views, Request};
use crate::response::Response;
use crate::router::{route_lookup, Router};
use vstd::prelude::*;
use vstd::string::StringSliceAdditionalSpecFns;

verus! {

/// One HTTP exchange: the request as parsed, the response as dispatched,
/// and the engine mode that carried it.
#[derive(Debug)]
pub struct Http {
    pub request: Request,
    pub response: Response,
    pub net_model: NetModel,
}

impl Http {
    /// Whether `c` is a well-formed request start line; this check keeps
    /// arbitrary probe bytes out of the engine.
    pub fn is(c: &str) -> (b: bool)
        ensures
            b == crate::grammar::valid_request_line(c.spec_bytes()),
    {
        crate::grammar::is_request_line(c.as_bytes())
    }

    /// Builds the exchange for a parsed request: the initial response is
    /// the default responder's answer, and a registered handler for the
    /// request's path replaces it with its own.
    pub fn build<H>(
        request: Request,
        initial: Response,
        router: &Router<H>,
        net_model: NetModel,
    ) -> (h: Http) where H: Fn(Request, Response) -> Response
        requires
            router.wf(),
        ensures
            req_eq_views(h.request, request),
            h.net_model == net_model,
            match route_lookup(router.entries(), request.path@) {
                None => h.response == initial,
                Some(f) => call_ensures(f, (request, initial), h.response),
            },
    {
        let (request, response) = router.dispatch(request, initial);
        Http { request, response, net_model }
    }
}

} // verus!
