//! The outbound response: the default (static-file and POST) responder, the
//! response parser used by the forwarder, and the serializer that produces
//! the bytes written back to the client.
use crate::ascii::{all_digits, dec_rep, dec_val};
use crate::dict::{lookup, spec_insert, Dict};
use crate::grammar;
use crate::headers::{
    content_length_key, hb_end, hb_reached, head_entries_from, head_step, line_end,
};
use crate::method::Method;
use crate::request::{first_line, Request};
use vstd::prelude::*;
use vstd::string::StringSliceAdditionalSpecFns;

verus! {

/// The fixed body of the missing-file answer.
pub open spec fn not_found_body() -> Seq<u8> {
    seq![
        ('<' as u8),
        ('h' as u8),
        ('1' as u8),
        ('>' as u8),
        ('4' as u8),
        ('0' as u8),
        ('4' as u8),
        (' ' as u8),
        ('N' as u8),
        ('o' as u8),
        ('t' as u8),
        (' ' as u8),
        ('F' as u8),
        ('o' as u8),
        ('u' as u8),
        ('n' as u8),
        ('d' as u8),
        ('<' as u8),
        ('/' as u8),
        ('h' as u8),
        ('1' as u8),
        ('>' as u8),
    ]
}

/// The fixed body the default responder gives a POST.
pub open spec fn post_default_body() -> Seq<u8> {
    seq![
        ('r' as u8),
        ('e' as u8),
        ('s' as u8),
        ('p' as u8),
        ('o' as u8),
        ('n' as u8),
        ('s' as u8),
        ('e' as u8),
        (' ' as u8),
        ('t' as u8),
        ('e' as u8),
        ('s' as u8),
        ('t' as u8),
    ]
}

pub open spec fn code_200() -> Seq<u8> {
    seq![('2' as u8), ('0' as u8), ('0' as u8)]
}

pub open spec fn code_404() -> Seq<u8> {
    seq![('4' as u8), ('0' as u8), ('4' as u8)]
}

pub open spec fn msg_ok() -> Seq<u8> {
    seq![('O' as u8), ('K' as u8)]
}

/// The 404 status message. The response grammar keeps a message to path and
/// query bytes, which rule a space out, so the two words are joined.
pub open spec fn msg_not_found() -> Seq<u8> {
    seq![
        ('N' as u8),
        ('o' as u8),
        ('t' as u8),
        ('F' as u8),
        ('o' as u8),
        ('u' as u8),
        ('n' as u8),
        ('d' as u8),
    ]
}

/// The body the default responder picks: file bytes or the 404 page for a
/// GET, the fixed test body for a POST, nothing for other methods.
pub open spec fn default_body(m: Method, file: Option<Seq<u8>>) -> Seq<u8> {
    if m == Method::GET {
        match file {
            Some(b) => b,
            None => not_found_body(),
        }
    } else if m == Method::POST {
        post_default_body()
    } else {
        Seq::<u8>::empty()
    }
}

/// The status code the default responder picks; empty for methods it does
/// not handle.
pub open spec fn default_code(m: Method, file: Option<Seq<u8>>) -> Seq<u8> {
    if m == Method::GET {
        match file {
            Some(b) => code_200(),
            None => code_404(),
        }
    } else if m == Method::POST {
        code_200()
    } else {
        Seq::<u8>::empty()
    }
}

/// The status message the default responder picks.
pub open spec fn default_msg(m: Method, file: Option<Seq<u8>>) -> Seq<u8> {
    if m == Method::GET {
        match file {
            Some(b) => msg_ok(),
            None => msg_not_found(),
        }
    } else if m == Method::POST {
        msg_ok()
    } else {
        Seq::<u8>::empty()
    }
}

/// What the default responder hands a handler (and, with no handler, the
/// client): status and body from `default_*`, the protocol this server
/// speaks, everything else empty.
pub open spec fn is_default_response(
    r: Response,
    m: Method,
    path: Seq<u8>,
    file: Option<Seq<u8>>,
) -> bool {
    &&& r.body@ == default_body(m, file)
    &&& r.status_code@ == default_code(m, file)
    &&& r.status_msg@ == default_msg(m, file)
    &&& r.protocol@ == grammar::version_11()
    &&& r.head.entries() == Seq::<(Seq<u8>, Seq<u8>)>::empty()
    &&& r.content_length == 0
    &&& r.raw@ == Seq::<u8>::empty()
    &&& r.req_method == m
    &&& r.req_path@ == path
    &&& r.wf()
}

/// An outbound HTTP response.
#[derive(Debug)]
pub struct Response {
    pub protocol: Vec<u8>,
    pub status_code: Vec<u8>,
    pub status_msg: Vec<u8>,
    pub head: Dict,
    pub body: Vec<u8>,
    pub content_length: u64,
    pub raw: Vec<u8>,
    pub req_method: Method,
    pub req_path: Vec<u8>,
}

impl Response {
    /// Well-formed: the header table has unique keys.
    pub open spec fn wf(&self) -> bool {
        self.head.wf()
    }

    /// The default responder. `static_file` carries the bytes of the file
    /// the request's target names under the static root, when it exists;
    /// the caller reads it for a GET and passes `None` otherwise.
    pub fn new(request: &Request, static_file: Option<Vec<u8>>) -> (r: Response)
        ensures
            is_default_response(
                r,
                request.method,
                request.path@,
                match static_file {
                    Some(b) => Some(b@),
                    None => None,
                },
            ),
    {
        let mut body: Vec<u8> = Vec::new();
        let mut code: Vec<u8> = Vec::new();
        let mut msg: Vec<u8> = Vec::new();
        let is_get = match request.method {
            Method::GET => true,
            _ => false,
        };
        let is_post = match request.method {
            Method::POST => true,
            _ => false,
        };
        if is_get {
            match static_file {
                Some(b) => {
                    body = b;
                    code = vec![('2' as u8), ('0' as u8), ('0' as u8)];
                    msg = vec![('O' as u8), ('K' as u8)];
                    proof {
                        assert(code@ =~= code_200());
                        assert(msg@ =~= msg_ok());
                    }
                },
                None => {
                    body = vec![
                        ('<' as u8),
                        ('h' as u8),
                        ('1' as u8),
                        ('>' as u8),
                        ('4' as u8),
                        ('0' as u8),
                        ('4' as u8),
                        (' ' as u8),
                        ('N' as u8),
                        ('o' as u8),
                        ('t' as u8),
                        (' ' as u8),
                        ('F' as u8),
                        ('o' as u8),
                        ('u' as u8),
                        ('n' as u8),
                        ('d' as u8),
                        ('<' as u8),
                        ('/' as u8),
                        ('h' as u8),
                        ('1' as u8),
                        ('>' as u8),
                    ];
                    code = vec![('4' as u8), ('0' as u8), ('4' as u8)];
                    msg = vec![
                        ('N' as u8),
                        ('o' as u8),
                        ('t' as u8),
                        ('F' as u8),
                        ('o' as u8),
                        ('u' as u8),
                        ('n' as u8),
                        ('d' as u8),
                    ];
                    proof {
                        assert(body@ =~= not_found_body());
                        assert(code@ =~= code_404());
                        assert(msg@ =~= msg_not_found());
                    }
                },
            }
        } else if is_post {
            body = vec![
                ('r' as u8),
                ('e' as u8),
                ('s' as u8),
                ('p' as u8),
                ('o' as u8),
                ('n' as u8),
                ('s' as u8),
                ('e' as u8),
                (' ' as u8),
                ('t' as u8),
                ('e' as u8),
                ('s' as u8),
                ('t' as u8),
            ];
            code = vec![('2' as u8), ('0' as u8), ('0' as u8)];
            msg = vec![('O' as u8), ('K' as u8)];
            proof {
                assert(body@ =~= post_default_body());
                assert(code@ =~= code_200());
                assert(msg@ =~= msg_ok());
            }
        }
        let protocol: Vec<u8> = vec![
            ('H' as u8),
            ('T' as u8),
            ('T' as u8),
            ('P' as u8),
            ('/' as u8),
            ('1' as u8),
            ('.' as u8),
            ('1' as u8),
        ];
        proof {
            assert(protocol@ =~= grammar::version_11());
        }
        let r = Response {
            protocol,
            status_code: code,
            status_msg: msg,
            head: Dict::new(),
            body,
            content_length: 0,
            raw: Vec::new(),
            req_method: request.method,
            req_path: crate::ascii::sub_vec(request.path.as_slice(), 0, request.path.len()),
        };
        proof {
            assert(r.req_path@ =~= request.path@);
        }
        r
    }

    /// Whether `r` is a well-formed response start line.
    pub fn is(r: &str) -> (b: bool)
        ensures
            b == grammar::valid_response_line(r.spec_bytes()),
    {
        grammar::is_response_line(r.as_bytes())
    }

    /// Replaces the body.
    pub fn set_body(&mut self, body: &str)
        ensures
            final(self).body@ == body.spec_bytes(),
            final(self).protocol == old(self).protocol,
            final(self).status_code == old(self).status_code,
            final(self).status_msg == old(self).status_msg,
            final(self).head == old(self).head,
            final(self).content_length == old(self).content_length,
            final(self).raw == old(self).raw,
            final(self).req_method == old(self).req_method,
            final(self).req_path == old(self).req_path,
    {
        self.body = body.as_bytes_vec();
    }

    /// Appends to the body.
    pub fn append_body(&mut self, body: &str)
        ensures
            final(self).body@ == old(self).body@ + body.spec_bytes(),
            final(self).protocol == old(self).protocol,
            final(self).status_code == old(self).status_code,
            final(self).status_msg == old(self).status_msg,
            final(self).head == old(self).head,
            final(self).content_length == old(self).content_length,
            final(self).raw == old(self).raw,
            final(self).req_method == old(self).req_method,
            final(self).req_path == old(self).req_path,
    {
        let mut tail = body.as_bytes_vec();
        self.body.append(&mut tail);
    }

    /// The serialized bytes, as `make_raw` left them.
    pub fn raw(&self) -> (r: Vec<u8>)
        ensures
            r@ == self.raw@,
    {
        crate::ascii::sub_vec(self.raw.as_slice(), 0, self.raw.len())
    }

    /// Records one header line into the header table; a `Content-Length`
    /// line also sets the mirror field, to zero when its value is not a
    /// plain decimal number.
    pub fn append_head_info(&mut self, item: &str)
        requires
            old(self).wf(),
        ensures
            final(self).wf(),
            final(self).head.entries() == head_step(old(self).head.entries(), item.spec_bytes()),
            final(self).content_length as int == match crate::headers::head_line_entry(
                item.spec_bytes(),
            ) {
                Some(p) => if p.0 == content_length_key() {
                    parsed_length(p.1)
                } else {
                    old(self).content_length as int
                },
                None => old(self).content_length as int,
            },
            final(self).protocol == old(self).protocol,
            final(self).status_code == old(self).status_code,
            final(self).status_msg == old(self).status_msg,
            final(self).body == old(self).body,
            final(self).raw == old(self).raw,
            final(self).req_method == old(self).req_method,
            final(self).req_path == old(self).req_path,
    {
        let line = item.as_bytes();
        let c = crate::ascii::find_byte(line, 0, ':' as u8);
        if c == line.len() {
            return ;
        }
        let name_raw = crate::ascii::sub_vec(line, 0, c);
        let value_raw = crate::ascii::sub_vec(line, c + 1, line.len());
        let name = crate::ascii::trim_bytes(name_raw.as_slice());
        let trimmed = crate::ascii::trim_bytes(value_raw.as_slice());
        let value = crate::ascii::strip_cr_lf(trimmed.as_slice());
        let cl = crate::headers::content_length_vec();
        if crate::ascii::bytes_eq(name.as_slice(), cl.as_slice()) {
            self.content_length = match crate::ascii::parse_u64(value.as_slice()) {
                Some(n) => n,
                None => 0,
            };
        }
        self.head.insert(name, value);
    }
}

/// The number a stored header value names: its decimal value, or zero when
/// it is not a nonempty digit string that fits in `u64`.
pub open spec fn parsed_length(v: Seq<u8>) -> int {
    if v.len() > 0 && all_digits(v) && dec_val(v) <= u64::MAX {
        dec_val(v)
    } else {
        0
    }
}

/// One serialized header line: `name:value` and CRLF.
pub open spec fn head_line_bytes(p: (Seq<u8>, Seq<u8>)) -> Seq<u8> {
    p.0 + seq![(':' as u8)] + p.1 + crate::headers::crlf_line()
}

/// The serialized header lines of `es` in order, `Content-Length` left out:
/// the serializer emits that one itself, right after the status line.
pub open spec fn head_lines_except_cl(es: Seq<(Seq<u8>, Seq<u8>)>) -> Seq<u8>
    decreases es.len(),
{
    if es.len() == 0 {
        Seq::<u8>::empty()
    } else {
        (if es[0].0 == content_length_key() {
            Seq::<u8>::empty()
        } else {
            head_line_bytes(es[0])
        }) + head_lines_except_cl(es.drop_first())
    }
}

proof fn lemma_hlec_push(es: Seq<(Seq<u8>, Seq<u8>)>, p: (Seq<u8>, Seq<u8>))
    ensures
        head_lines_except_cl(es.push(p)) == head_lines_except_cl(es) + (if p.0
            == content_length_key() {
            Seq::<u8>::empty()
        } else {
            head_line_bytes(p)
        }),
    decreases es.len(),
{
    if es.len() == 0 {
        assert(es.push(p)[0] == p);
        assert(es.push(p).drop_first() =~= Seq::<(Seq<u8>, Seq<u8>)>::empty());
        assert(head_lines_except_cl(Seq::<(Seq<u8>, Seq<u8>)>::empty()) == Seq::<u8>::empty());
        assert(head_lines_except_cl(es) == Seq::<u8>::empty());
        assert(head_lines_except_cl(es.push(p)) =~= head_lines_except_cl(es) + (if p.0
            == content_length_key() {
            Seq::<u8>::empty()
        } else {
            head_line_bytes(p)
        }));
    } else {
        assert(es.push(p)[0] == es[0]);
        assert(es.push(p).drop_first() =~= es.drop_first().push(p));
        lemma_hlec_push(es.drop_first(), p);
        assert(head_lines_except_cl(es.push(p)) =~= head_lines_except_cl(es) + (if p.0
            == content_length_key() {
            Seq::<u8>::empty()
        } else {
            head_line_bytes(p)
        }));
    }
}

/// The canonical bytes of a response: `protocol code msg`, `Content-Length`
/// computed from the body, the other headers in table order, a blank line,
/// and the body. The protocol is the response's own: a parsed reply keeps
/// the version its backend answered, and responses built here carry
/// `HTTP/1.1`.
pub open spec fn resp_serialized(r: Response) -> Seq<u8> {
    r.protocol@ + seq![(' ' as u8)] + r.status_code@ + seq![(' ' as u8)] + r.status_msg@
        + crate::headers::crlf_line() + content_length_key() + seq![(':' as u8)] + dec_rep(
        r.body@.len() as int,
    ) + crate::headers::crlf_line() + head_lines_except_cl(r.head.entries())
        + crate::headers::crlf_line() + r.body@
}

impl Response {
    /// Serializes the response into `raw` and records the computed
    /// `Content-Length` in the header table.
    pub fn make_raw(&mut self)
        requires
            old(self).wf(),
        ensures
            final(self).wf(),
            final(self).raw@ == resp_serialized(*old(self)),
            final(self).head.entries() == spec_insert(
                old(self).head.entries(),
                content_length_key(),
                dec_rep(old(self).body@.len() as int),
            ),
            final(self).protocol == old(self).protocol,
            final(self).status_code == old(self).status_code,
            final(self).status_msg == old(self).status_msg,
            final(self).body == old(self).body,
            final(self).content_length == old(self).content_length,
            final(self).req_method == old(self).req_method,
            final(self).req_path == old(self).req_path,
    {
        let mut out: Vec<u8> = Vec::new();
        out.extend_from_slice(self.protocol.as_slice());
        out.push(' ' as u8);
        out.extend_from_slice(self.status_code.as_slice());
        out.push(' ' as u8);
        out.extend_from_slice(self.status_msg.as_slice());
        out.push(0x0d);
        out.push(0x0a);
        let cl = crate::headers::content_length_vec();
        out.extend_from_slice(cl.as_slice());
        out.push(':' as u8);
        crate::ascii::push_dec(self.body.len() as u64, &mut out);
        out.push(0x0d);
        out.push(0x0a);
        let ghost p0: Seq<u8> = self.protocol@ + seq![(' ' as u8)] + self.status_code@ + seq![
            (' ' as u8),
        ] + self.status_msg@ + crate::headers::crlf_line() + content_length_key() + seq![
            (':' as u8),
        ] + dec_rep(self.body@.len() as int) + crate::headers::crlf_line();
        proof {
            assert(out@ =~= p0);
            assert(self.head.entries().subrange(0, 0) =~= Seq::<(Seq<u8>, Seq<u8>)>::empty());
        }
        let ghost es = self.head.entries();
        let n = self.head.len();
        let mut i: usize = 0;
        while i < n
            invariant
                0 <= i <= n,
                n == es.len(),
                es == self.head.entries(),
                self.head.wf(),
                cl@ == content_length_key(),
                p0 == self.protocol@ + seq![(' ' as u8)] + self.status_code@ + seq![(' ' as u8)]
                    + self.status_msg@ + crate::headers::crlf_line() + content_length_key() + seq![
                    (':' as u8),
                ] + dec_rep(self.body@.len() as int) + crate::headers::crlf_line(),
                out@ == p0 + head_lines_except_cl(es.subrange(0, i as int)),
            decreases n - i,
        {
            let key = self.head.key_at(i);
            let is_cl = crate::ascii::bytes_eq(key.as_slice(), cl.as_slice());
            let ghost out_before = out@;
            if !is_cl {
                out.extend_from_slice(self.head.key_at(i).as_slice());
                out.push(':' as u8);
                out.extend_from_slice(self.head.val_at(i).as_slice());
                out.push(0x0d);
                out.push(0x0a);
                proof {
                    assert(out@ =~= out_before + head_line_bytes(es[i as int]));
                }
            }
            proof {
                assert(es.subrange(0, i + 1) =~= es.subrange(0, i as int).push(es[i as int]));
                lemma_hlec_push(es.subrange(0, i as int), es[i as int]);
                assert(out@ =~= p0 + head_lines_except_cl(es.subrange(0, i + 1)));
            }
            i += 1;
        }
        proof {
            assert(es.subrange(0, es.len() as int) =~= es);
        }
        out.push(0x0d);
        out.push(0x0a);
        out.extend_from_slice(self.body.as_slice());
        proof {
            assert(out@ =~= resp_serialized(*old(self)));
        }
        self.raw = out;
        let mut dv: Vec<u8> = Vec::new();
        crate::ascii::push_dec(self.body.len() as u64, &mut dv);
        proof {
            assert(dv@ =~= dec_rep(self.body@.len() as int));
        }
        let clk = crate::headers::content_length_vec();
        self.head.insert(clk, dv);
    }
}

/// The `Content-Length` mirror a parsed response carries: the header's
/// decimal value, or zero when the header is absent or not a plain number.
pub open spec fn resp_content_length(es: Seq<(Seq<u8>, Seq<u8>)>) -> int {
    match lookup(es, content_length_key()) {
        None => 0,
        Some(v) => parsed_length(v),
    }
}

/// How many body bytes a parsed response takes: with a complete header
/// block and a usable `Content-Length` of N, the smaller of N and what the
/// input still holds; zero otherwise.
pub open spec fn resp_body_len(input: Seq<u8>) -> int {
    let hstart = line_end(input, 0);
    let hend = hb_end(input, hstart);
    if !hb_reached(input, hstart) {
        0
    } else {
        match crate::request::content_length_of(
            head_entries_from(input, hstart, Seq::<(Seq<u8>, Seq<u8>)>::empty()),
        ) {
            None => 0,
            Some(n) => if n <= input.len() - hend {
                n
            } else {
                input.len() - hend
            },
        }
    }
}

/// What a successful response decode of `input` hands back. `raw` keeps the
/// header lines as read, blank line included.
pub open spec fn resp_decoded(resp: Response, input: Seq<u8>) -> bool {
    let line = first_line(input);
    let hstart = line_end(input, 0);
    let hend = hb_end(input, hstart);
    &&& resp.protocol@ == grammar::resp_version(line)
    &&& resp.status_code@ == grammar::resp_code(line)
    &&& resp.status_msg@ == grammar::resp_msg(line)
    &&& resp.head.entries() == head_entries_from(input, hstart, Seq::<(Seq<u8>, Seq<u8>)>::empty())
    &&& resp.content_length as int == resp_content_length(resp.head.entries())
    &&& resp.body@ == input.subrange(hend, hend + resp_body_len(input))
    &&& resp.raw@ == input.subrange(hstart, hend)
    &&& resp.req_method == Method::DEFAULT
    &&& resp.req_path@ == Seq::<u8>::empty()
    &&& resp.wf()
}

/// A header name the codec reproduces exactly: no `:`, no CR or LF, and no
/// whitespace at either end (inner whitespace is fine).
pub open spec fn wf_header_name(k: Seq<u8>) -> bool {
    &&& k.len() > 0 ==> !crate::ascii::is_ws(k[0]) && !crate::ascii::is_ws(k[k.len() - 1])
    &&& forall|i: int|
        0 <= i < k.len() ==> (#[trigger] k[i]) != (':' as u8) && crate::ascii::not_cr_lf(k[i])
}

/// A header value the codec reproduces exactly: no CR or LF, and no
/// whitespace at either end.
pub open spec fn wf_header_value(v: Seq<u8>) -> bool {
    &&& v.len() > 0 ==> !crate::ascii::is_ws(v[0]) && !crate::ascii::is_ws(v[v.len() - 1])
    &&& forall|i: int| 0 <= i < v.len() ==> crate::ascii::not_cr_lf(#[trigger] v[i])
}

/// Trimming strips exactly the CRLF a line terminator appended.
proof fn lemma_trim_value_crlf(v: Seq<u8>)
    requires
        v.len() > 0 ==> !crate::ascii::is_ws(v[0]) && !crate::ascii::is_ws(v[v.len() - 1]),
    ensures
        crate::ascii::trim(v + crate::headers::crlf_line()) == v,
{
    let x = v + crate::headers::crlf_line();
    if v.len() > 0 {
        assert(x[0] == v[0]);
        assert(crate::ascii::trim_start(x) == x);
        assert(x.drop_last() =~= v.push(crate::grammar::cr()));
        assert(v.push(crate::grammar::cr()).drop_last() =~= v);
        assert(crate::ascii::trim_end(x) == crate::ascii::trim_end(x.drop_last()));
        assert(crate::ascii::trim_end(v.push(crate::grammar::cr())) == crate::ascii::trim_end(v));
        assert(crate::ascii::trim_end(v) == v);
    } else {
        assert(x =~= crate::headers::crlf_line());
        assert(crate::ascii::is_ws(x[0]));
        assert(crate::ascii::trim_start(x) == crate::ascii::trim_start(x.drop_first()));
        let y = x.drop_first();
        assert(y =~= seq![crate::grammar::lf()]);
        assert(crate::ascii::is_ws(y[0]));
        assert(crate::ascii::trim_start(y) == crate::ascii::trim_start(y.drop_first()));
        let z = y.drop_first();
        assert(z =~= Seq::<u8>::empty());
        assert(crate::ascii::trim_start(z) == z);
        assert(crate::ascii::trim_end(z) == z);
        assert(crate::ascii::trim(x) =~= Seq::<u8>::empty());
        assert(v =~= Seq::<u8>::empty());
    }
}

/// A valid target (or status message) holds no control byte: every byte is
/// a path byte, the question mark, or a query byte, and none of those is
/// CR, LF or a space.
proof fn lemma_target_bytes(t: Seq<u8>)
    requires
        grammar::valid_target(t),
    ensures
        forall|i: int|
            0 <= i < t.len() ==> (#[trigger] t[i]) != crate::grammar::lf() && t[i]
                != crate::grammar::cr() && t[i] != crate::grammar::sp(),
{
    grammar::lemma_path_end(t, 0);
    let k = grammar::path_end(t, 0);
    assert forall|i: int| 0 <= i < t.len() implies (#[trigger] t[i]) != crate::grammar::lf() && t[i]
        != crate::grammar::cr() && t[i] != crate::grammar::sp() by {
        if i < k {
            assert(grammar::is_path_byte(t[i]));
        } else if i == k {
            assert(t[i] == ('?' as u8));
        } else {
            assert(grammar::is_query_byte(t[i]));
        }
    }
}

/// Parsing one serialized header line at `pos` gives its entry back.
proof fn lemma_parse_one_header_line(s: Seq<u8>, pos: int, k: Seq<u8>, v: Seq<u8>)
    requires
        0 <= pos,
        pos + k.len() + v.len() + 3 <= s.len(),
        s.subrange(pos, pos + k.len() + v.len() + 3) == head_line_bytes((k, v)),
        wf_header_name(k),
        wf_header_value(v),
    ensures
        line_end(s, pos) == pos + k.len() + v.len() + 3,
        s.subrange(pos, line_end(s, pos)) == head_line_bytes((k, v)),
        s.subrange(pos, line_end(s, pos)) != crate::headers::crlf_line(),
        crate::headers::head_line_entry(s.subrange(pos, line_end(s, pos))) == Some((k, v)),
{
    let hlb = head_line_bytes((k, v));
    let len = k.len() + v.len() + 3;
    assert(hlb.len() == len);
    assert(forall|i: int| 0 <= i < len ==> s[pos + i] == hlb[i]) by {
        assert(forall|i: int|
            0 <= i < len ==> s[pos + i] == #[trigger] s.subrange(pos, pos + len as int)[i]);
    }
    assert(forall|i: int| 0 <= i < k.len() ==> hlb[i] == k[i]);
    assert(hlb[k.len() as int] == (':' as u8));
    assert(forall|i: int| 0 <= i < v.len() ==> hlb[k.len() + 1 + i] == v[i]);
    assert(hlb[len - 2] == crate::grammar::cr());
    assert(hlb[len - 1] == crate::grammar::lf());
    // the line ends exactly at the serialized CRLF
    assert forall|j: int| pos <= j < pos + len - 1 implies s[j] != crate::grammar::lf() by {
        let i = j - pos;
        if i < k.len() {
            assert(hlb[i] == k[i]);
        } else if i == k.len() {
        } else if i < len - 2 {
            assert(hlb[i] == v[i - k.len() - 1]);
        } else {
        }
    }
    assert(s[pos + len - 1] == crate::grammar::lf());
    crate::ascii::lemma_find_from_is(s, pos, crate::grammar::lf(), pos + len - 1);
    assert(line_end(s, pos) == pos + len);
    let line = s.subrange(pos, pos + len);
    assert(line == hlb);
    assert(line.len() != 2);
    assert(line != crate::headers::crlf_line());
    // the first colon of the line is the serialized separator
    assert(forall|i: int| 0 <= i < line.len() ==> line[i] == hlb[i]);
    assert forall|j: int| 0 <= j < k.len() implies line[j] != (':' as u8) by {
        assert(hlb[j] == k[j]);
    }
    assert(line[k.len() as int] == (':' as u8));
    crate::ascii::lemma_find_from_is(line, 0, ':' as u8, k.len() as int);
    assert(line.subrange(0, k.len() as int) =~= k);
    crate::ascii::lemma_trim_fixed(k);
    assert(line.subrange(k.len() as int + 1, line.len() as int) =~= v + crate::headers::crlf_line());
    lemma_trim_value_crlf(v);
    crate::ascii::lemma_filter_all(v, |b: u8| crate::ascii::not_cr_lf(b));
    assert(crate::headers::clean_value(v + crate::headers::crlf_line()) == v);
}

/// Parsing the serialized blank line at `pos` ends the header block.
proof fn lemma_parse_blank(s: Seq<u8>, pos: int)
    requires
        0 <= pos,
        pos + 2 <= s.len(),
        s.subrange(pos, pos + 2) == crate::headers::crlf_line(),
    ensures
        line_end(s, pos) == pos + 2,
        s.subrange(pos, line_end(s, pos)) == crate::headers::crlf_line(),
{
    assert(s[pos] == crate::headers::crlf_line()[0]) by {
        assert(s.subrange(pos, pos + 2)[0] == s[pos]);
    }
    assert(s[pos + 1] == crate::headers::crlf_line()[1]) by {
        assert(s.subrange(pos, pos + 2)[1] == s[pos + 1]);
    }
    crate::ascii::lemma_find_from_is(s, pos, crate::grammar::lf(), pos + 1);
}

/// Parsing a serialized run of header lines folds exactly their entries in:
/// a key of the run reads back its value, every other key falls through to
/// the accumulator.
proof fn lemma_parse_entries(
    s: Seq<u8>,
    pos: int,
    es: Seq<(Seq<u8>, Seq<u8>)>,
    acc: Seq<(Seq<u8>, Seq<u8>)>,
)
    requires
        0 <= pos,
        pos + head_lines_except_cl(es).len() + 2 <= s.len(),
        s.subrange(pos, pos + head_lines_except_cl(es).len() + 2) == head_lines_except_cl(es)
            + crate::headers::crlf_line(),
        forall|i: int|
            0 <= i < es.len() ==> wf_header_name((#[trigger] es[i]).0) && wf_header_value(
                es[i].1,
            ),
        crate::dict::unique_keys(es),
    ensures
        hb_end(s, pos) == pos + head_lines_except_cl(es).len() + 2,
        hb_reached(s, pos),
        forall|k: Seq<u8>|
            #[trigger] lookup(head_entries_from(s, pos, acc), k) == (if k != content_length_key()
                && lookup(es, k) is Some {
                lookup(es, k)
            } else {
                lookup(acc, k)
            }),
    decreases es.len(),
{
    let hl = head_lines_except_cl(es);
    if es.len() == 0 {
        assert(hl =~= Seq::<u8>::empty());
        assert(s.subrange(pos, pos + 2) =~= crate::headers::crlf_line());
        lemma_parse_blank(s, pos);
        assert(hb_end(s, pos) == pos + 2);
        assert(hb_reached(s, pos));
        assert(head_entries_from(s, pos, acc) == acc);
        assert(forall|k: Seq<u8>| lookup(es, k) is None);
    } else {
        let tail = es.drop_first();
        let hlt = head_lines_except_cl(tail);
        assert(forall|i: int|
            0 <= i < tail.len() ==> wf_header_name((#[trigger] tail[i]).0) && wf_header_value(
                tail[i].1,
            ));
        assert(crate::dict::unique_keys(tail));
        if es[0].0 == content_length_key() {
            assert(hl =~= hlt);
            assert(s.subrange(pos, pos + hlt.len() + 2) == hlt + crate::headers::crlf_line());
            lemma_parse_entries(s, pos, tail, acc);
            assert forall|k: Seq<u8>|
                #[trigger] lookup(head_entries_from(s, pos, acc), k) == (if k
                    != content_length_key() && lookup(es, k) is Some {
                    lookup(es, k)
                } else {
                    lookup(acc, k)
                }) by {
                if k != content_length_key() {
                    assert(lookup(es, k) == lookup(tail, k));
                }
            }
        } else {
            let k0 = es[0].0;
            let v0 = es[0].1;
            let hlb = head_line_bytes((k0, v0));
            let l0 = k0.len() + v0.len() + 3;
            assert(hlb.len() == l0);
            assert(hl =~= hlb + hlt);
            assert(hl + crate::headers::crlf_line() =~= hlb + (hlt + crate::headers::crlf_line()));
            crate::ascii::lemma_split_subrange(s, pos, hlb, hlt + crate::headers::crlf_line());
            assert(s.subrange(pos, pos + l0 as int) == hlb);
            assert(es[0] == (k0, v0));
            lemma_parse_one_header_line(s, pos, k0, v0);
            let e = line_end(s, pos);
            assert(e == pos + l0);
            assert(crate::headers::head_step(acc, s.subrange(pos, e)) == spec_insert(
                acc,
                k0,
                v0,
            ));
            assert(s.subrange(e, e + hlt.len() + 2) == hlt + crate::headers::crlf_line());
            lemma_parse_entries(s, e, tail, spec_insert(acc, k0, v0));
            assert(hb_end(s, pos) == hb_end(s, e));
            assert(hb_reached(s, pos) == hb_reached(s, e));
            assert(head_entries_from(s, pos, acc) == head_entries_from(
                s,
                e,
                spec_insert(acc, k0, v0),
            ));
            crate::dict::lemma_lookup_spec_insert(acc, k0, v0);
            assert(forall|i: int| 0 <= i < tail.len() ==> (#[trigger] tail[i]).0 != k0);
            crate::dict::lemma_lookup_at(tail, k0, tail.len() as int);
            assert(lookup(tail, k0) is None);
            assert forall|k: Seq<u8>|
                #[trigger] lookup(head_entries_from(s, pos, acc), k) == (if k
                    != content_length_key() && lookup(es, k) is Some {
                    lookup(es, k)
                } else {
                    lookup(acc, k)
                }) by {
                if k == k0 {
                    assert(lookup(es, k0) == Some(v0));
                    assert(lookup(head_entries_from(s, e, spec_insert(acc, k0, v0)), k0) == lookup(
                        spec_insert(acc, k0, v0),
                        k0,
                    ));
                } else {
                    assert(lookup(es, k) == lookup(tail, k));
                    assert(lookup(spec_insert(acc, k0, v0), k) == lookup(acc, k));
                }
            }
        }
    }
}

/// Round trip of the codec: parsing a serialized response gives back its
/// protocol, its status code, its status message, its body, and every
/// header under its name, while `Content-Length` reads exactly the body's
/// length. Header names and values must be ones the codec reproduces
/// (`wf_header_name`, `wf_header_value`), and the protocol, status code and
/// message must fit the wire grammar; outside that, parsing normalizes and
/// cannot restore the original.
#[verifier::rlimit(100)]
pub proof fn lemma_serialize_parse_round_trip(r: Response)
    requires
        r.wf(),
        grammar::is_version_token(r.protocol@),
        grammar::is_status_code(r.status_code@),
        grammar::valid_target(r.status_msg@),
        r.body@.len() <= usize::MAX,
        forall|i: int|
            0 <= i < r.head.entries().len() ==> wf_header_name(
                (#[trigger] r.head.entries()[i]).0,
            ) && wf_header_value(r.head.entries()[i].1),
    ensures
        ({
            let out = resp_serialized(r);
            let hstart = line_end(out, 0);
            let parsed = head_entries_from(out, hstart, Seq::<(Seq<u8>, Seq<u8>)>::empty());
            &&& grammar::valid_response_line(first_line(out))
            &&& grammar::resp_version(first_line(out)) == r.protocol@
            &&& grammar::resp_code(first_line(out)) == r.status_code@
            &&& grammar::resp_msg(first_line(out)) == r.status_msg@
            &&& lookup(parsed, content_length_key()) == Some(dec_rep(r.body@.len() as int))
            &&& forall|k: Seq<u8>|
                k != content_length_key() ==> #[trigger] lookup(parsed, k) == lookup(
                    r.head.entries(),
                    k,
                )
            &&& resp_body_len(out) == r.body@.len()
            &&& out.subrange(
                hb_end(out, hstart),
                hb_end(out, hstart) + resp_body_len(out),
            ) == r.body@
        }),
{
    let out = resp_serialized(r);
    let code = r.status_code@;
    let msg = r.status_msg@;
    let es = r.head.entries();
    let blen = r.body@.len() as int;
    let dec = dec_rep(blen);
    let proto = r.protocol@;
    let sl = proto + seq![(' ' as u8)] + code + seq![(' ' as u8)] + msg
        + crate::headers::crlf_line();
    let cll = head_line_bytes((content_length_key(), dec));
    let hl = head_lines_except_cl(es);
    crate::ascii::lemma_dec_rep_digits(blen);
    assert(code.len() == 3);
    assert(proto.len() == 8);
    let n_sl = 15 + msg.len() as int;
    assert(sl.len() == n_sl);
    let l_cl = content_length_key().len() + dec.len() + 3;
    assert(cll.len() == l_cl);
    let p2 = n_sl + l_cl;
    // cut the serialized bytes into status line, length line, headers, body
    let rest1 = cll + (hl + (crate::headers::crlf_line() + r.body@));
    assert(out =~= sl + rest1);
    assert(out.subrange(0, out.len() as int) =~= out);
    crate::ascii::lemma_split_subrange(out, 0, sl, rest1);
    assert(out.subrange(0, n_sl) == sl);
    let rest2 = hl + (crate::headers::crlf_line() + r.body@);
    crate::ascii::lemma_split_subrange(out, n_sl, cll, rest2);
    assert(out.subrange(n_sl, p2) == cll);
    assert(rest2 =~= (hl + crate::headers::crlf_line()) + r.body@);
    crate::ascii::lemma_split_subrange(out, p2, hl + crate::headers::crlf_line(), r.body@);
    assert(out.subrange(p2, p2 + hl.len() + 2) == hl + crate::headers::crlf_line());
    assert(out.subrange(p2 + hl.len() + 2, out.len() as int) == r.body@);
    // the status line is the first line
    assert(forall|j: int|
        0 <= j < 8 ==> grammar::version_10()[j] != crate::grammar::lf() && grammar::version_11()[
            j
        ] != crate::grammar::lf() && grammar::version_20()[j] != crate::grammar::lf());
    lemma_target_bytes(msg);
    assert(forall|j: int| 0 <= j < 3 ==> crate::ascii::is_digit(#[trigger] code[j]));
    assert forall|j: int| 0 <= j < n_sl - 1 implies out[j] != crate::grammar::lf() by {
        assert(out[j] == out.subrange(0, n_sl)[j]);
        if j < 8 {
            assert(sl[j] == proto[j]);
        } else if j == 8 {
            assert(sl[j] == (' ' as u8));
        } else if j < 12 {
            assert(sl[j] == code[j - 9]);
        } else if j == 12 {
            assert(sl[j] == (' ' as u8));
        } else if j < n_sl - 2 {
            assert(sl[j] == msg[j - 13]);
        } else {
            assert(sl[j] == crate::grammar::cr());
        }
    }
    assert(out[n_sl - 1] == out.subrange(0, n_sl)[n_sl - 1]);
    assert(sl[n_sl - 1] == crate::grammar::lf());
    crate::ascii::lemma_find_from_is(out, 0, crate::grammar::lf(), n_sl - 1);
    assert(line_end(out, 0) == n_sl);
    let fl = first_line(out);
    assert(fl == sl);
    // the status line fits the response grammar
    assert(fl.subrange(0, 8) =~= proto);
    assert(fl[8] == crate::grammar::sp());
    assert(fl.subrange(9, 12) =~= code);
    assert(fl[12] == crate::grammar::sp());
    assert(fl.subrange(13, fl.len() - 2) =~= msg);
    assert(fl[fl.len() - 2] == crate::grammar::cr());
    assert(fl[fl.len() - 1] == crate::grammar::lf());
    assert(grammar::valid_response_line(fl));
    assert(grammar::resp_version(fl) == proto);
    assert(grammar::resp_code(fl) == code);
    assert(grammar::resp_msg(fl) == msg);
    // the Content-Length line parses to its entry
    assert(wf_header_name(content_length_key()));
    assert(wf_header_value(dec)) by {
        assert(forall|i: int|
            0 <= i < dec.len() ==> crate::ascii::is_digit(#[trigger] dec[i]));
    }
    lemma_parse_one_header_line(out, n_sl, content_length_key(), dec);
    assert(line_end(out, n_sl) == n_sl + l_cl);
    let acc0 = spec_insert(Seq::<(Seq<u8>, Seq<u8>)>::empty(), content_length_key(), dec);
    assert(crate::headers::head_step(
        Seq::<(Seq<u8>, Seq<u8>)>::empty(),
        out.subrange(n_sl, n_sl + l_cl),
    ) == acc0);
    assert(head_entries_from(out, n_sl, Seq::<(Seq<u8>, Seq<u8>)>::empty()) == head_entries_from(
        out,
        p2,
        acc0,
    ));
    assert(hb_end(out, n_sl) == hb_end(out, p2));
    assert(hb_reached(out, n_sl) == hb_reached(out, p2));
    // the remaining lines are the table's entries
    lemma_parse_entries(out, p2, es, acc0);
    let hend = hb_end(out, n_sl);
    assert(hend == p2 + hl.len() + 2);
    assert(hb_reached(out, n_sl));
    let parsed = head_entries_from(out, n_sl, Seq::<(Seq<u8>, Seq<u8>)>::empty());
    crate::dict::lemma_lookup_spec_insert(Seq::<(Seq<u8>, Seq<u8>)>::empty(), content_length_key(), dec);
    assert(lookup(acc0, content_length_key()) == Some(dec));
    assert(lookup(parsed, content_length_key()) == Some(dec));
    assert forall|k: Seq<u8>| k != content_length_key() implies #[trigger] lookup(parsed, k)
        == lookup(es, k) by {
        assert(lookup(acc0, k) == lookup(Seq::<(Seq<u8>, Seq<u8>)>::empty(), k));
        assert(lookup(Seq::<(Seq<u8>, Seq<u8>)>::empty(), k) is None);
    }
    // the body is exactly Content-Length bytes, and they are the body
    assert(crate::request::content_length_of(parsed) == Some(blen)) by {
        assert(dec_val(dec) == blen);
        assert(blen <= u64::MAX);
    }
    assert(out.len() - hend == blen);
    assert(resp_body_len(out) == blen);
    assert(out.subrange(hend, hend + blen) =~= r.body@);
}

impl Response {
    /// Decodes one response from the front of `input`.
    ///
    /// Fails exactly when the first line is not a response start line. On
    /// success the start line is split into version, code and message, the
    /// header block is folded into the header table, and a body of
    /// `Content-Length` bytes is taken whenever that header is present and
    /// usable (fewer only when the input ends early).
    pub fn decode(input: &[u8]) -> (r: Result<Response, String>)
        ensures
            r is Ok <==> grammar::valid_response_line(first_line(input@)),
            r is Ok ==> resp_decoded(r->Ok_0, input@),
            r is Err ==> r->Err_0@ == "this is not an http response body"@,
    {
        let nl = crate::ascii::find_byte(input, 0, 0x0a);
        let l1: usize = if nl == input.len() {
            input.len()
        } else {
            nl + 1
        };
        proof {
            assert(l1 as int == line_end(input@, 0));
        }
        let line1 = crate::ascii::sub_vec(input, 0, l1);
        if !grammar::is_response_line(line1.as_slice()) {
            return Err("this is not an http response body".to_owned());
        }
        let protocol = crate::ascii::sub_vec(line1.as_slice(), 0, 8);
        let status_code = crate::ascii::sub_vec(line1.as_slice(), 9, 12);
        let status_msg = crate::ascii::sub_vec(line1.as_slice(), 13, l1 - 2);
        let (head, _cookie, hend, reached) = crate::headers::parse_head_block(input, l1);
        let cl = crate::headers::content_length_vec();
        let mut content_length: u64 = 0;
        let mut body_take: usize = 0;
        match head.get(cl.as_slice()) {
            None => {},
            Some(v) => {
                match crate::ascii::parse_u64(v.as_slice()) {
                    None => {},
                    Some(n) => {
                        content_length = n;
                        if reached {
                            let rem = input.len() - hend;
                            body_take = if n > (rem as u64) {
                                rem
                            } else {
                                n as usize
                            };
                        }
                    },
                }
            },
        }
        let body = crate::ascii::sub_vec(input, hend, hend + body_take);
        let raw = crate::ascii::sub_vec(input, l1, hend);
        let resp = Response {
            protocol,
            status_code,
            status_msg,
            head,
            body,
            content_length,
            raw,
            req_method: Method::DEFAULT,
            req_path: Vec::new(),
        };
        proof {
            assert(line1@ == first_line(input@));
            assert(body_take as int == resp_body_len(input@));
        }
        Ok(resp)
    }
}

} // verus!
