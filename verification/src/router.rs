//! The router registry: an insertion-ordered table from exact request
//! targets to handler functions. Registration before serving replaces an
//! existing entry for the same path; lookup is byte-for-byte equality, with
//! no prefix, wildcard or method distinction.
use crate::request::Request;
use crate::response::Response;
use vstd::prelude::*;

verus! {

/// The handler a path routes to, found by scanning from the front; with
/// unique paths this is the handler of the one entry for `p`.
pub open spec fn route_lookup<H>(es: Seq<(Seq<u8>, H)>, p: Seq<u8>) -> Option<H>
    decreases es.len(),
{
    if es.len() == 0 {
        None
    } else if es[0].0 == p {
        Some(es[0].1)
    } else {
        route_lookup(es.drop_first(), p)
    }
}

/// A handler whose precondition admits every request and response.
pub open spec fn total_handler<H: Fn(Request, Response) -> Response>(h: H) -> bool {
    forall|req: Request, res: Response| call_requires(h, (req, res))
}

pub proof fn lemma_route_lookup_at<H>(es: Seq<(Seq<u8>, H)>, p: Seq<u8>, j: int)
    requires
        0 <= j <= es.len(),
        forall|i: int| 0 <= i < j ==> (#[trigger] es[i]).0 != p,
        j < es.len() ==> es[j].0 == p,
    ensures
        route_lookup(es, p) == if j == es.len() {
            None::<H>
        } else {
            Some(es[j].1)
        },
    decreases j, es.len(),
{
    if es.len() == 0 {
    } else if j == 0 {
    } else {
        let t = es.drop_first();
        assert(forall|i: int| 0 <= i < j - 1 ==> (#[trigger] t[i]).0 != p);
        lemma_route_lookup_at(t, p, j - 1);
    }
}

proof fn lemma_route_lookup_push<H>(es: Seq<(Seq<u8>, H)>, e: (Seq<u8>, H), p: Seq<u8>)
    requires
        p != e.0,
    ensures
        route_lookup(es.push(e), p) == route_lookup(es, p),
    decreases es.len(),
{
    if es.len() == 0 {
        assert(es.push(e)[0] == e);
        assert(es.push(e).drop_first() =~= Seq::<(Seq<u8>, H)>::empty());
        assert(route_lookup(Seq::<(Seq<u8>, H)>::empty(), p) is None);
        assert(es =~= Seq::<(Seq<u8>, H)>::empty());
    } else {
        assert(es.push(e)[0] == es[0]);
        if es[0].0 == p {
        } else {
            assert(es.push(e).drop_first() =~= es.drop_first().push(e));
            lemma_route_lookup_push(es.drop_first(), e, p);
        }
    }
}

proof fn lemma_route_lookup_update_other<H>(es: Seq<(Seq<u8>, H)>, j: int, e: (Seq<u8>, H), p: Seq<u8>)
    requires
        0 <= j < es.len(),
        es[j].0 == e.0,
        p != e.0,
    ensures
        route_lookup(es.update(j, e), p) == route_lookup(es, p),
    decreases es.len(),
{
    let es2 = es.update(j, e);
    if j == 0 {
        assert(es2[0] == e);
        assert(es2.drop_first() =~= es.drop_first());
    } else {
        assert(es2[0] == es[0]);
        if es[0].0 == p {
        } else {
            assert(es2.drop_first() =~= es.drop_first().update(j - 1, e));
            lemma_route_lookup_update_other(es.drop_first(), j - 1, e, p);
        }
    }
}

/// The registry: pairs of an exact path and its handler.
pub struct Router<H> where H: Fn(Request, Response) -> Response {
    entries: Vec<(Vec<u8>, H)>,
}

impl<H> Router<H> where H: Fn(Request, Response) -> Response {
    /// The registered entries, oldest first.
    pub closed spec fn entries(&self) -> Seq<(Seq<u8>, H)> {
        self.entries@.map_values(|e: (Vec<u8>, H)| (e.0@, e.1))
    }

    /// Well-formed: paths unique, every handler callable on any input.
    pub open spec fn wf(&self) -> bool {
        &&& forall|i: int, j: int|
            0 <= i < j < self.entries().len() ==> (#[trigger] self.entries()[i]).0 != (
            #[trigger] self.entries()[j]).0
        &&& forall|i: int|
            0 <= i < self.entries().len() ==> total_handler(#[trigger] self.entries()[i].1)
    }

    /// An empty registry.
    pub fn new() -> (r: Router<H>)
        ensures
            r.wf(),
            r.entries() == Seq::<(Seq<u8>, H)>::empty(),
    {
        let r = Router { entries: Vec::new() };
        proof {
            assert(r.entries() =~= Seq::<(Seq<u8>, H)>::empty());
        }
        r
    }

    pub fn len(&self) -> (n: usize)
        ensures
            n == self.entries().len(),
    {
        self.entries.len()
    }

    /// Registers `handler` for `path`; a handler already registered for the
    /// same path is replaced.
    pub fn register(&mut self, path: Vec<u8>, handler: H)
        requires
            old(self).wf(),
            total_handler(handler),
        ensures
            final(self).wf(),
            route_lookup(final(self).entries(), path@) == Some(handler),
            forall|p2: Seq<u8>| p2 != path@ ==> route_lookup(final(self).entries(), p2)
                == route_lookup(old(self).entries(), p2),
    {
        let ghost es0 = self.entries();
        let mut i: usize = 0;
        while i < self.entries.len()
            invariant
                0 <= i <= self.entries().len(),
                self.entries() == es0,
                es0 == old(self).entries(),
                old(self).wf(),
                total_handler(handler),
                forall|j: int| 0 <= j < i ==> (#[trigger] self.entries()[j]).0 != path@,
            decreases self.entries().len() - i,
        {
            if crate::ascii::bytes_eq(self.entries[i].0.as_slice(), path.as_slice()) {
                self.entries[i] = (path, handler);
                proof {
                    assert(self.entries() =~= es0.update(i as int, (path@, handler)));
                    assert(forall|j: int|
                        0 <= j < self.entries().len() ==> (#[trigger] self.entries()[j]).0 == es0[
                            j
                        ].0);
                    lemma_route_lookup_at(self.entries(), path@, i as int);
                    assert forall|p2: Seq<u8>| p2 != path@ implies route_lookup(
                        self.entries(),
                        p2,
                    ) == route_lookup(es0, p2) by {
                        lemma_route_lookup_update_other(es0, i as int, (path@, handler), p2);
                    }
                }
                return ;
            }
            i += 1;
        }
        self.entries.push((path, handler));
        proof {
            assert(self.entries() =~= es0.push((path@, handler)));
            lemma_route_lookup_at(self.entries(), path@, es0.len() as int);
            assert forall|p2: Seq<u8>| p2 != path@ implies route_lookup(self.entries(), p2)
                == route_lookup(es0, p2) by {
                lemma_route_lookup_push(es0, (path@, handler), p2);
            }
        }
    }

    /// Looks the request's path up. With a handler registered for it, the
    /// handler is called on the request and the initial response and its
    /// answer is returned; without one, the initial response is the
    /// answer. The request comes back unchanged either way (as a copy when
    /// a handler consumed it).
    pub fn dispatch(&self, request: Request, initial: Response) -> (r: (Request, Response))
        requires
            self.wf(),
        ensures
            crate::request::req_eq_views(r.0, request),
            match route_lookup(self.entries(), request.path@) {
                None => r == (request, initial),
                Some(f) => call_ensures(f, (request, initial), r.1),
            },
    {
        let mut i: usize = 0;
        while i < self.entries.len()
            invariant
                0 <= i <= self.entries().len(),
                self.wf(),
                forall|j: int| 0 <= j < i ==> (#[trigger] self.entries()[j]).0 != request.path@,
            decreases self.entries().len() - i,
        {
            if crate::ascii::bytes_eq(self.entries[i].0.as_slice(), request.path.as_slice()) {
                proof {
                    lemma_route_lookup_at(self.entries(), request.path@, i as int);
                }
                let copy = request.duplicate();
                let out = (self.entries[i].1)(request, initial);
                return (copy, out);
            }
            i += 1;
        }
        proof {
            lemma_route_lookup_at(self.entries(), request.path@, self.entries().len() as int);
        }
        (request, initial)
    }

    /// The handler registered for `path`, if any.
    pub fn lookup(&self, path: &[u8]) -> (r: Option<&H>)
        ensures
            match r {
                Some(h) => route_lookup(self.entries(), path@) == Some(*h),
                None => route_lookup(self.entries(), path@) is None,
            },
    {
        let mut i: usize = 0;
        while i < self.entries.len()
            invariant
                0 <= i <= self.entries().len(),
                forall|j: int| 0 <= j < i ==> (#[trigger] self.entries()[j]).0 != path@,
            decreases self.entries().len() - i,
        {
            if crate::ascii::bytes_eq(self.entries[i].0.as_slice(), path) {
                proof {
                    lemma_route_lookup_at(self.entries(), path@, i as int);
                }
                return Some(&self.entries[i].1);
            }
            i += 1;
        }
        proof {
            lemma_route_lookup_at(self.entries(), path@, self.entries().len() as int);
        }
        None
    }
}

} // verus!
