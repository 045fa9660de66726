//! The inbound request: decoding a byte stream into method, target, version,
//! query parameters, cookies, headers and body, with the consumed bytes kept
//! verbatim in `raw`.
use crate::ascii::{all_digits, dec_val, find_from};
use crate::dict::{lookup, spec_insert, Dict};
use crate::grammar;
use crate::headers::{
    content_length_key, cookie_entries_from, cookie_step, hb_end, hb_reached, head_entries_from,
    head_step, line_end,
};
use crate::method::{method_of_token, Method};
use vstd::prelude::*;
use vstd::string::StringSliceAdditionalSpecFns;

verus! {

/// The first line of the input, terminator included.
pub open spec fn first_line(input: Seq<u8>) -> Seq<u8> {
    input.subrange(0, line_end(input, 0))
}

/// A `name=value` pair from one query segment: name before the first `=`,
/// value between the first and the second `=` (or the end), untrimmed;
/// `None` for a segment without `=`.
pub open spec fn eq_pair_raw(seg: Seq<u8>) -> Option<(Seq<u8>, Seq<u8>)> {
    let e = find_from(seg, 0, '=' as u8);
    if e == seg.len() {
        None
    } else {
        let e2 = find_from(seg, e + 1, '=' as u8);
        Some((seg.subrange(0, e), seg.subrange(e + 1, e2)))
    }
}

/// Query pairs accumulated from the `&`-separated segments of `t` at and
/// after `pos`.
pub open spec fn params_fold(t: Seq<u8>, pos: int, es: Seq<(Seq<u8>, Seq<u8>)>) -> Seq<
    (Seq<u8>, Seq<u8>),
>
    decreases t.len() - pos,
{
    if pos < 0 || pos > t.len() {
        es
    } else {
        let amp = find_from(t, pos, '&' as u8);
        let es1 = match eq_pair_raw(t.subrange(pos, amp)) {
            None => es,
            Some(p) => spec_insert(es, p.0, p.1),
        };
        if pos <= amp && amp < t.len() {
            params_fold(t, amp + 1, es1)
        } else {
            es1
        }
    }
}

/// The query parameters of a request target: the part after `?`, parsed as
/// `&`-separated `name=value` pairs; empty when the target has no `?`.
pub open spec fn params_of(target: Seq<u8>) -> Seq<(Seq<u8>, Seq<u8>)> {
    let qm = find_from(target, 0, '?' as u8);
    if qm >= target.len() {
        Seq::<(Seq<u8>, Seq<u8>)>::empty()
    } else {
        params_fold(target, qm + 1, Seq::<(Seq<u8>, Seq<u8>)>::empty())
    }
}

/// The body length a header table calls for: the value of `Content-Length`
/// when it is a nonempty digit string no larger than `u64::MAX`.
pub open spec fn content_length_of(es: Seq<(Seq<u8>, Seq<u8>)>) -> Option<int> {
    match lookup(es, content_length_key()) {
        None => None,
        Some(v) => if v.len() > 0 && all_digits(v) && dec_val(v) <= u64::MAX {
            Some(dec_val(v))
        } else {
            None
        },
    }
}

/// How many body bytes a request consumes: for a POST whose header block is
/// complete and carries a usable `Content-Length` of N, the smaller of N and
/// what the input still holds; zero in every other case.
pub open spec fn req_body_len(input: Seq<u8>) -> int {
    let line = first_line(input);
    let hstart = line_end(input, 0);
    let hend = hb_end(input, hstart);
    if method_of_token(grammar::req_method_token(line)) != Method::POST {
        0
    } else if !hb_reached(input, hstart) {
        0
    } else {
        match content_length_of(
            head_entries_from(input, hstart, Seq::<(Seq<u8>, Seq<u8>)>::empty()),
        ) {
            None => 0,
            Some(n) => if n <= input.len() - hend {
                n
            } else {
                input.len() - hend
            },
        }
    }
}

/// How many input bytes a successful decode consumes.
pub open spec fn req_consumed(input: Seq<u8>) -> int {
    hb_end(input, line_end(input, 0)) + req_body_len(input)
}

/// What a successful decode of `input` hands back.
pub open spec fn decoded(req: Request, input: Seq<u8>) -> bool {
    let line = first_line(input);
    let hstart = line_end(input, 0);
    let hend = hb_end(input, hstart);
    &&& req.method == method_of_token(grammar::req_method_token(line))
    &&& req.path@ == grammar::req_target(line)
    &&& req.protocol@ == grammar::req_version(line)
    &&& req.head.entries() == head_entries_from(input, hstart, Seq::<(Seq<u8>, Seq<u8>)>::empty())
    &&& req.cookie.entries() == cookie_entries_from(
        input,
        hstart,
        Seq::<(Seq<u8>, Seq<u8>)>::empty(),
    )
    &&& req.params.entries() == params_of(grammar::req_target(line))
    &&& req.body@ == input.subrange(hend, hend + req_body_len(input))
    &&& req.raw@ == input.subrange(0, req_consumed(input))
    &&& req.wf()
}

/// For a POST whose header block is complete and whose `Content-Length` is
/// a usable `n`, with at least `n` bytes after the blank line, decoding
/// takes exactly `n` body bytes and consumes nothing beyond them, however
/// many bytes follow.
pub proof fn lemma_post_body_exact(input: Seq<u8>, n: int)
    requires
        method_of_token(grammar::req_method_token(first_line(input))) == Method::POST,
        hb_reached(input, line_end(input, 0)),
        content_length_of(
            head_entries_from(input, line_end(input, 0), Seq::<(Seq<u8>, Seq<u8>)>::empty()),
        ) == Some(n),
        hb_end(input, line_end(input, 0)) + n <= input.len(),
    ensures
        req_body_len(input) == n,
        req_consumed(input) == hb_end(input, line_end(input, 0)) + n,
{
}

/// Whether buffered bytes already hold everything a decode will consume: a
/// valid start line, the header block's blank line, and, for a POST whose
/// `Content-Length` is a usable N, at least N body bytes after the block.
pub open spec fn spec_request_complete(input: Seq<u8>) -> bool {
    let line = first_line(input);
    let hstart = line_end(input, 0);
    let hend = hb_end(input, hstart);
    &&& grammar::valid_request_line(line)
    &&& hb_reached(input, hstart)
    &&& match content_length_of(
        head_entries_from(input, hstart, Seq::<(Seq<u8>, Seq<u8>)>::empty()),
    ) {
        None => true,
        Some(n) => method_of_token(grammar::req_method_token(line)) != Method::POST || input.len()
            - hend >= n,
    }
}

/// Whether the bytes read so far hold a full request. A serving loop that
/// buffers a connection's bytes asks this to decide when to stop reading
/// and decode; further reads can only append bytes the decode ignores.
pub fn request_complete(input: &[u8]) -> (r: bool)
    ensures
        r == spec_request_complete(input@),
{
    let nl = crate::ascii::find_byte(input, 0, 0x0a);
    let l1: usize = if nl == input.len() {
        input.len()
    } else {
        nl + 1
    };
    proof {
        assert(l1 as int == line_end(input@, 0));
    }
    let line1 = crate::ascii::sub_vec(input, 0, l1);
    proof {
        assert(line1@ == first_line(input@));
    }
    if !grammar::is_request_line(line1.as_slice()) {
        return false;
    }
    let (head, _cookie, hend, reached) = crate::headers::parse_head_block(input, l1);
    if !reached {
        return false;
    }
    let cl = crate::headers::content_length_vec();
    match head.get(cl.as_slice()) {
        None => true,
        Some(v) => {
            match crate::ascii::parse_u64(v.as_slice()) {
                None => true,
                Some(n) => {
                    let ml: usize;
                    match grammar::method_sp_prefix(line1.as_slice()) {
                        Some(m) => {
                            ml = m;
                        },
                        None => {
                            proof {
                                assert(false);
                            }
                            return false;
                        },
                    }
                    let method = Method::from_token(
                        crate::ascii::sub_vec(line1.as_slice(), 0, ml).as_slice(),
                    );
                    let is_post = match method {
                        Method::POST => true,
                        _ => false,
                    };
                    if !is_post {
                        true
                    } else {
                        ((input.len() - hend) as u64) >= n
                    }
                },
            }
        },
    }
}

/// A decoded request's `raw` bytes are a faithful wire image: decoding them
/// again accepts and yields the same request. This is what the outbound
/// forwarder relies on when it transmits `raw` to a backend.
pub proof fn lemma_raw_redecodes(req: Request, input: Seq<u8>)
    requires
        grammar::valid_request_line(first_line(input)),
        decoded(req, input),
    ensures
        first_line(req.raw@) == first_line(input),
        grammar::valid_request_line(first_line(req.raw@)),
        forall|req2: Request| decoded(req2, req.raw@) ==> req_eq_views(req2, req),
{
    let l1 = line_end(input, 0);
    let hend = hb_end(input, l1);
    let blen = req_body_len(input);
    let cut = hend + blen;
    crate::headers::lemma_line_end(input, 0);
    crate::headers::lemma_hb_end_bounds(input, l1);
    assert(blen >= 0) by {
        let es = head_entries_from(input, l1, Seq::<(Seq<u8>, Seq<u8>)>::empty());
        match content_length_of(es) {
            None => {},
            Some(n) => {
                match lookup(es, content_length_key()) {
                    None => {},
                    Some(v) => {
                        if v.len() > 0 && crate::ascii::all_digits(v) && dec_val(v) <= u64::MAX {
                            crate::ascii::lemma_dec_val_nonneg(v);
                        }
                    },
                }
            },
        }
    }
    assert(cut <= input.len());
    let raw = input.subrange(0, cut);
    assert(req.raw@ == raw);
    assert(l1 <= cut);
    crate::headers::lemma_line_end_prefix(input, cut, 0);
    assert(line_end(raw, 0) == l1);
    assert(first_line(raw) =~= first_line(input));
    crate::headers::lemma_block_prefix(
        input,
        cut,
        l1,
        Seq::<(Seq<u8>, Seq<u8>)>::empty(),
        Seq::<(Seq<u8>, Seq<u8>)>::empty(),
    );
    assert(hb_end(raw, l1) == hend);
    assert(req_body_len(raw) == blen) by {
        let line = first_line(input);
        if method_of_token(grammar::req_method_token(line)) == Method::POST && hb_reached(
            input,
            l1,
        ) {
            let es = head_entries_from(input, l1, Seq::<(Seq<u8>, Seq<u8>)>::empty());
            match content_length_of(es) {
                None => {},
                Some(n) => {
                    assert(raw.len() - hend == blen);
                },
            }
        }
    }
    assert forall|req2: Request| decoded(req2, req.raw@) implies req_eq_views(req2, req) by {
        assert(req2.body@ =~= req.body@) by {
            assert(req2.body@ == raw.subrange(hend, hend + blen));
            assert(req.body@ == input.subrange(hend, hend + blen));
        }
        assert(req2.raw@ =~= req.raw@) by {
            assert(req2.raw@ == raw.subrange(0, hend + blen));
            assert(raw.subrange(0, hend + blen) =~= raw);
        }
    }
}

/// A decoded request carries a recognized method and one of the three
/// version tokens as its protocol: both come straight from the start-line
/// grammar, so `DEFAULT` and foreign version strings cannot come out of a
/// successful decode.
pub proof fn lemma_decoded_start_line_recognized(req: Request, input: Seq<u8>)
    requires
        grammar::valid_request_line(first_line(input)),
        decoded(req, input),
    ensures
        req.method != Method::DEFAULT,
        grammar::is_version_token(req.protocol@),
{
    let line = first_line(input);
    let ml = grammar::method_sp_len(line);
    let tok = grammar::req_method_token(line);
    if grammar::starts_with(line, grammar::tok_get().push(grammar::sp())) {
        assert(tok =~= grammar::tok_get());
    } else if grammar::starts_with(line, grammar::tok_head().push(grammar::sp())) {
        assert(tok =~= grammar::tok_head());
    } else if grammar::starts_with(line, grammar::tok_post().push(grammar::sp())) {
        assert(tok =~= grammar::tok_post());
    } else if grammar::starts_with(line, grammar::tok_put().push(grammar::sp())) {
        assert(tok =~= grammar::tok_put());
    } else if grammar::starts_with(line, grammar::tok_delete().push(grammar::sp())) {
        assert(tok =~= grammar::tok_delete());
    } else if grammar::starts_with(line, grammar::tok_connect().push(grammar::sp())) {
        assert(tok =~= grammar::tok_connect());
    } else if grammar::starts_with(line, grammar::tok_options().push(grammar::sp())) {
        assert(tok =~= grammar::tok_options());
    } else {
        assert(grammar::starts_with(line, grammar::tok_trace().push(grammar::sp())));
        assert(tok =~= grammar::tok_trace());
    }
    assert(grammar::tok_get() != grammar::tok_put()) by {
        assert(grammar::tok_get()[0] != grammar::tok_put()[0]);
    }
    assert(grammar::tok_head() != grammar::tok_post()) by {
        assert(grammar::tok_head()[0] != grammar::tok_post()[0]);
    }
}

/// Two requests that agree on everything observable.
pub open spec fn req_eq_views(a: Request, b: Request) -> bool {
    &&& a.method == b.method
    &&& a.path@ == b.path@
    &&& a.protocol@ == b.protocol@
    &&& a.params.entries() == b.params.entries()
    &&& a.cookie.entries() == b.cookie.entries()
    &&& a.head.entries() == b.head.entries()
    &&& a.body@ == b.body@
    &&& a.raw@ == b.raw@
}

/// An inbound HTTP request.
#[derive(Debug)]
pub struct Request {
    pub method: Method,
    pub path: Vec<u8>,
    pub protocol: Vec<u8>,
    pub params: Dict,
    pub cookie: Dict,
    pub head: Dict,
    pub body: Vec<u8>,
    pub raw: Vec<u8>,
}

impl Request {
    /// Well-formed: the three tables have unique keys.
    pub open spec fn wf(&self) -> bool {
        self.params.wf() && self.cookie.wf() && self.head.wf()
    }

    /// An empty request: unknown method, nothing parsed.
    pub fn new() -> (r: Request)
        ensures
            r.wf(),
            r.method == Method::DEFAULT,
            r.path@ == Seq::<u8>::empty(),
            r.protocol@ == Seq::<u8>::empty(),
            r.params.entries() == Seq::<(Seq<u8>, Seq<u8>)>::empty(),
            r.cookie.entries() == Seq::<(Seq<u8>, Seq<u8>)>::empty(),
            r.head.entries() == Seq::<(Seq<u8>, Seq<u8>)>::empty(),
            r.body@ == Seq::<u8>::empty(),
            r.raw@ == Seq::<u8>::empty(),
    {
        let r = Request {
            method: Method::DEFAULT,
            path: Vec::new(),
            protocol: Vec::new(),
            params: Dict::new(),
            cookie: Dict::new(),
            head: Dict::new(),
            body: Vec::new(),
            raw: Vec::new(),
        };
        r
    }

    /// Whether `r` is a well-formed request start line.
    pub fn is(r: &str) -> (b: bool)
        ensures
            b == grammar::valid_request_line(r.spec_bytes()),
    {
        grammar::is_request_line(r.as_bytes())
    }

    /// The request method.
    pub fn method(&self) -> (m: Method)
        ensures
            m == self.method,
    {
        self.method
    }

    /// A field-for-field copy.
    pub fn duplicate(&self) -> (r: Request)
        ensures
            req_eq_views(r, *self),
    {
        let r = Request {
            method: self.method,
            path: crate::ascii::sub_vec(self.path.as_slice(), 0, self.path.len()),
            protocol: crate::ascii::sub_vec(self.protocol.as_slice(), 0, self.protocol.len()),
            params: self.params.duplicate(),
            cookie: self.cookie.duplicate(),
            head: self.head.duplicate(),
            body: crate::ascii::sub_vec(self.body.as_slice(), 0, self.body.len()),
            raw: crate::ascii::sub_vec(self.raw.as_slice(), 0, self.raw.len()),
        };
        proof {
            assert(r.path@ =~= self.path@);
            assert(r.protocol@ =~= self.protocol@);
            assert(r.body@ =~= self.body@);
            assert(r.raw@ =~= self.raw@);
        }
        r
    }

    /// The bytes consumed from the wire, verbatim.
    pub fn raw(&self) -> (r: Vec<u8>)
        ensures
            r@ == self.raw@,
    {
        crate::ascii::sub_vec(self.raw.as_slice(), 0, self.raw.len())
    }

    /// Records one header line: inserts its entry into the header table and,
    /// for a `Cookie` line, its pairs into the cookie table.
    pub fn append_head_info(&mut self, item: &str)
        requires
            old(self).wf(),
        ensures
            final(self).wf(),
            final(self).head.entries() == head_step(old(self).head.entries(), item.spec_bytes()),
            final(self).cookie.entries() == cookie_step(
                old(self).cookie.entries(),
                item.spec_bytes(),
            ),
            final(self).method == old(self).method,
            final(self).path == old(self).path,
            final(self).protocol == old(self).protocol,
            final(self).params == old(self).params,
            final(self).body == old(self).body,
            final(self).raw == old(self).raw,
    {
        crate::headers::apply_head_line(item.as_bytes(), &mut self.head, &mut self.cookie);
    }

    /// Fills the parameter table from the target held in `path`.
    pub fn handle_params(&mut self)
        ensures
            final(self).params.wf(),
            final(self).params.entries() == params_of(old(self).path@),
            final(self).method == old(self).method,
            final(self).path == old(self).path,
            final(self).protocol == old(self).protocol,
            final(self).cookie == old(self).cookie,
            final(self).head == old(self).head,
            final(self).body == old(self).body,
            final(self).raw == old(self).raw,
    {
        self.params = parse_params(self.path.as_slice());
    }

    /// Decodes one request from the front of `input`.
    ///
    /// Fails exactly when the first line is not a request start line. On
    /// success the fields are as `decoded` states: the start line split into
    /// method, target and version; the header block folded into the header
    /// and cookie tables; the query parsed from the target; and, for a POST
    /// with a complete header block and a usable `Content-Length` of N,
    /// exactly N body bytes taken (fewer only when the input ends early),
    /// whatever follows them left untouched.
    pub fn decode(input: &[u8]) -> (r: Result<Request, String>)
        ensures
            r is Ok <==> grammar::valid_request_line(first_line(input@)),
            r is Ok ==> decoded(r->Ok_0, input@),
            r is Err ==> r->Err_0@ == "http request processing failed"@,
    {
        let nl = crate::ascii::find_byte(input, 0, 0x0a);
        let l1: usize = if nl == input.len() {
            input.len()
        } else {
            nl + 1
        };
        proof {
            assert(l1 as int == line_end(input@, 0));
        }
        let line1 = crate::ascii::sub_vec(input, 0, l1);
        if !grammar::is_request_line(line1.as_slice()) {
            return Err("http request processing failed".to_owned());
        }
        let ml: usize;
        match grammar::method_sp_prefix(line1.as_slice()) {
            Some(m) => {
                ml = m;
            },
            None => {
                proof {
                    assert(false);
                }
                return Err("http request processing failed".to_owned());
            },
        }
        let method = Method::from_token(crate::ascii::sub_vec(line1.as_slice(), 0, ml).as_slice());
        let path = crate::ascii::sub_vec(line1.as_slice(), ml + 1, l1 - 11);
        let protocol = crate::ascii::sub_vec(line1.as_slice(), l1 - 10, l1 - 2);
        let params = parse_params(path.as_slice());
        let (head, cookie, hend, reached) = crate::headers::parse_head_block(input, l1);
        let mut body_take: usize = 0;
        let is_post = match method {
            Method::POST => true,
            _ => false,
        };
        if is_post && reached {
            let cl = crate::headers::content_length_vec();
            match head.get(cl.as_slice()) {
                None => {},
                Some(v) => {
                    match crate::ascii::parse_u64(v.as_slice()) {
                        None => {},
                        Some(n) => {
                            let rem = input.len() - hend;
                            body_take = if n > (rem as u64) {
                                rem
                            } else {
                                n as usize
                            };
                        },
                    }
                },
            }
        }
        let body = crate::ascii::sub_vec(input, hend, hend + body_take);
        let raw = crate::ascii::sub_vec(input, 0, hend + body_take);
        let req = Request { method, path, protocol, params, cookie, head, body, raw };
        proof {
            assert(line1@ == first_line(input@));
            assert(body_take as int == req_body_len(input@));
        }
        Ok(req)
    }
}

/// Builds the parameter table of a request target.
pub fn parse_params(target: &[u8]) -> (d: Dict)
    ensures
        d.wf(),
        d.entries() == params_of(target@),
{
    let mut d = Dict::new();
    let qm = crate::ascii::find_byte(target, 0, '?' as u8);
    if qm == target.len() {
        return d;
    }
    apply_params_from(target, qm + 1, &mut d);
    d
}

/// Parses the `&`-separated segments of `t` at and after `pos`.
fn apply_params_from(t: &[u8], pos: usize, d: &mut Dict)
    requires
        pos <= t@.len(),
        old(d).wf(),
    ensures
        final(d).wf(),
        final(d).entries() == params_fold(t@, pos as int, old(d).entries()),
    decreases t@.len() - pos,
{
    let amp = crate::ascii::find_byte(t, pos, '&' as u8);
    let seg = crate::ascii::sub_vec(t, pos, amp);
    let e = crate::ascii::find_byte(seg.as_slice(), 0, '=' as u8);
    if e < seg.len() {
        let e2 = crate::ascii::find_byte(seg.as_slice(), e + 1, '=' as u8);
        let k = crate::ascii::sub_vec(seg.as_slice(), 0, e);
        let v = crate::ascii::sub_vec(seg.as_slice(), e + 1, e2);
        d.insert(k, v);
    }
    if amp < t.len() {
        apply_params_from(t, amp + 1, d);
    }
}

} // verus!
