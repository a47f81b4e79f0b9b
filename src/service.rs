//! Serving one request: the route table picks a handler, a missing route
//! gives the 404 page.
use vstd::prelude::*;
use crate::http::{not_found_view, Request, Response};
use crate::route::{bind, winner, Bindings, Tree};

verus! {

/// A request handler: answers a request with the names its route bound, or
/// declines.
pub trait EndpointFunction {
    fn handle(&self, request: Request, bindings: Bindings) -> Option<Response>;
}

/// The answer of the handler whose route serves `request`, called with a copy
/// of the request and the names its route binds; none where no route serves
/// it.
pub fn dispatch<H: EndpointFunction>(endpoints: &Tree<H>, request: &Request) -> (r: Option<
    Response,
>)
    ensures
        !(exists|i: int|
            winner(endpoints.spec_routes(), i, request@.verb, request@.url.resource)) ==> r is None,
        (exists|i: int|
            winner(endpoints.spec_routes(), i, request@.verb, request@.url.resource)) ==> exists|
            i: int,
            req: Request,
            b: Bindings,
        |
            winner(endpoints.spec_routes(), i, request@.verb, request@.url.resource) && req@
                == request@ && b@ == bind(
                endpoints.spec_routes()[i].pattern,
                request@.url.resource,
            ) && call_ensures(H::handle, (&endpoints.spec_routes()[i].handler, req, b), r),
{
    match endpoints.find_match(request.verb(), request.url()) {
        Some((handler, bindings)) => {
            let req = request.duplicate();
            let ghost b = bindings;
            let ghost q = req;
            let r = handler.handle(req, bindings);
            proof {
                let i = choose|i: int|
                    winner(endpoints.spec_routes(), i, request@.verb, request@.url.resource)
                        && *handler == (#[trigger] endpoints.spec_routes()[i]).handler && b@
                        == bind(endpoints.spec_routes()[i].pattern, request@.url.resource);
                assert(call_ensures(H::handle, (&endpoints.spec_routes()[i].handler, q, b), r));
            }
            r
        },
        None => None,
    }
}

/// The response to `request`: the answer of its route's handler, or the 404
/// page where no route serves it or the handler declines.
pub fn respond<H: EndpointFunction>(endpoints: &Tree<H>, request: &Request) -> (r: Response)
    ensures
        !(exists|i: int|
            winner(endpoints.spec_routes(), i, request@.verb, request@.url.resource)) ==> r@
            == not_found_view() && r.length_consistent(),
        (exists|i: int|
            winner(endpoints.spec_routes(), i, request@.verb, request@.url.resource)) ==> exists|
            i: int,
            req: Request,
            b: Bindings,
            o: Option<Response>,
        |
            winner(endpoints.spec_routes(), i, request@.verb, request@.url.resource) && req@
                == request@ && b@ == bind(
                endpoints.spec_routes()[i].pattern,
                request@.url.resource,
            ) && call_ensures(H::handle, (&endpoints.spec_routes()[i].handler, req, b), o)
                && (match o {
                Some(x) => r == x,
                None => r@ == not_found_view() && r.length_consistent(),
            }),
{
    let d = dispatch(endpoints, request);
    let ghost dg = d;
    let r = match d {
        Some(r) => r,
        None => Response::not_found(),
    };
    proof {
        if exists|i: int|
            winner(endpoints.spec_routes(), i, request@.verb, request@.url.resource) {
            let (i, req, b) = choose|i: int, req: Request, b: Bindings|
                winner(endpoints.spec_routes(), i, request@.verb, request@.url.resource) && req@
                    == request@ && b@ == bind(
                    endpoints.spec_routes()[i].pattern,
                    request@.url.resource,
                ) && call_ensures(H::handle, (&endpoints.spec_routes()[i].handler, req, b), dg);
            assert(winner(endpoints.spec_routes(), i, request@.verb, request@.url.resource) && req@
                == request@ && b@ == bind(endpoints.spec_routes()[i].pattern, request@.url.resource)
                && call_ensures(H::handle, (&endpoints.spec_routes()[i].handler, req, b), dg)
                && (match dg {
                Some(x) => r == x,
                None => r@ == not_found_view() && r.length_consistent(),
            }));
        }
    }
    r
}

} // verus!
