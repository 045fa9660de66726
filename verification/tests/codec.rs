use humbird::dict::Dict;
use humbird::grammar;
use humbird::method::Method;
use humbird::request::{request_complete, Request};
use humbird::response::Response;

#[test]
fn request_line_accepts_the_grammar() {
    assert!(grammar::is_request_line(b"GET / HTTP/1.1\r\n"));
    assert!(grammar::is_request_line(b"POST /upload HTTP/1.0\r\n"));
    assert!(grammar::is_request_line(b"DELETE /a.b.c HTTP/2.0\r\n"));
    assert!(grammar::is_request_line(b"GET /p?a=1&b=2 HTTP/1.1\r\n"));
    assert!(grammar::is_request_line(b"OPTIONS /x HTTP/1.1\r\n"));
    assert!(grammar::is_request_line(b"TRACE / HTTP/1.1\r\n"));
    assert!(grammar::is_request_line(b"CONNECT / HTTP/1.1\r\n"));
    assert!(grammar::is_request_line(b"HEAD / HTTP/1.1\r\n"));
    assert!(grammar::is_request_line(b"PUT / HTTP/1.1\r\n"));
    // the target may be empty altogether
    assert!(grammar::is_request_line(b"GET  HTTP/1.1\r\n"));
}

#[test]
fn request_line_rejects_the_negative_corpus() {
    assert!(!grammar::is_request_line(b""));
    assert!(!grammar::is_request_line(b"HELLO\r\n"));
    assert!(!grammar::is_request_line(b"GET /\r\n"));
    assert!(!grammar::is_request_line(b"GET / HTTP/3.0\r\n"));
    assert!(!grammar::is_request_line(b"GET / HTTP/1.1"));
    assert!(!grammar::is_request_line(b"GET / HTTP/1.1\n"));
    assert!(!grammar::is_request_line(b"get / HTTP/1.1\r\n"));
    assert!(!grammar::is_request_line(b"GET /a b HTTP/1.1\r\n"));
    assert!(!grammar::is_request_line(b"GET /? HTTP/1.1\r\n"));
    assert!(!grammar::is_request_line(b"GARBAGE\r\n"));
}

#[test]
fn request_line_predicate_on_strings() {
    assert!(Request::is("GET / HTTP/1.1\r\n"));
    assert!(!Request::is("HELLO\r\n"));
    assert!(humbird::http::Http::is("GET / HTTP/1.1\r\n"));
    assert!(!humbird::http::Http::is("GET / HTTP/3.0\r\n"));
}

#[test]
fn response_line_grammar() {
    assert!(grammar::is_response_line(b"HTTP/1.1 200 OK\r\n"));
    assert!(grammar::is_response_line(b"HTTP/1.0 404 NotFound\r\n"));
    assert!(grammar::is_response_line(b"HTTP/1.1 503 \r\n"));
    assert!(!grammar::is_response_line(b"HTTP/1.1 299 OK\r\n"));
    assert!(!grammar::is_response_line(b"HTTP/3.0 200 OK\r\n"));
    assert!(!grammar::is_response_line(b"HTTP/1.1 200 Not Found\r\n"));
    assert!(Response::is("HTTP/1.1 200 OK\r\n"));
    assert!(!Response::is("HELLO\r\n"));
}

#[test]
fn decode_splits_the_start_line() {
    let req = Request::decode(b"GET /index.html HTTP/1.1\r\nHost: x\r\n\r\n").unwrap();
    assert_eq!(req.method(), Method::GET);
    assert_eq!(req.path, b"/index.html".to_vec());
    assert_eq!(req.protocol, b"HTTP/1.1".to_vec());
    assert_eq!(req.body, Vec::<u8>::new());
    assert_eq!(req.head.get(b"Host").unwrap(), &b"x".to_vec());
}

#[test]
fn decode_rejects_garbage() {
    let e = Request::decode(b"GARBAGE\r\n").unwrap_err();
    assert_eq!(e, "http request processing failed".to_string());
    assert!(Request::decode(b"").is_err());
    assert!(Request::decode(b"GET /\r\n").is_err());
}

#[test]
fn decode_keeps_raw_bytes_verbatim() {
    let input = b"GET /a HTTP/1.1\r\nHost: h\r\n\r\n";
    let req = Request::decode(input).unwrap();
    assert_eq!(req.raw(), input.to_vec());
}

#[test]
fn post_body_takes_exactly_content_length() {
    let input = b"POST /u HTTP/1.1\r\nContent-Length: 5\r\n\r\nhelloEXTRA";
    let req = Request::decode(input).unwrap();
    assert_eq!(req.body, b"hello".to_vec());
    assert_eq!(req.raw(), b"POST /u HTTP/1.1\r\nContent-Length: 5\r\n\r\nhello".to_vec());
}

#[test]
fn post_body_truncated_input_takes_what_is_there() {
    let input = b"POST /u HTTP/1.1\r\nContent-Length: 10\r\n\r\nabc";
    let req = Request::decode(input).unwrap();
    assert_eq!(req.body, b"abc".to_vec());
}

#[test]
fn post_body_needs_a_usable_content_length() {
    let req = Request::decode(b"POST /u HTTP/1.1\r\n\r\nhello").unwrap();
    assert_eq!(req.body, Vec::<u8>::new());
    let req = Request::decode(b"POST /u HTTP/1.1\r\nContent-Length: zz\r\n\r\nhello").unwrap();
    assert_eq!(req.body, Vec::<u8>::new());
}

#[test]
fn get_never_reads_a_body() {
    let req = Request::decode(b"GET /u HTTP/1.1\r\nContent-Length: 5\r\n\r\nhello").unwrap();
    assert_eq!(req.body, Vec::<u8>::new());
}

#[test]
fn cookies_parse_into_the_cookie_table() {
    let req = Request::decode(b"GET / HTTP/1.1\r\nCookie: a=1; b=2; c=3\r\n\r\n").unwrap();
    assert_eq!(req.cookie.get(b"a").unwrap(), &b"1".to_vec());
    assert_eq!(req.cookie.get(b"b").unwrap(), &b"2".to_vec());
    assert_eq!(req.cookie.get(b"c").unwrap(), &b"3".to_vec());
    assert_eq!(req.cookie.len(), 3);
    // the Cookie header itself is also an ordinary header
    assert_eq!(req.head.get(b"Cookie").unwrap(), &b"a=1; b=2; c=3".to_vec());
}

#[test]
fn query_parameters_parse_from_the_target() {
    let req = Request::decode(b"GET /p?a=1&b=2 HTTP/1.1\r\n\r\n").unwrap();
    assert_eq!(req.path, b"/p?a=1&b=2".to_vec());
    assert_eq!(req.params.get(b"a").unwrap(), &b"1".to_vec());
    assert_eq!(req.params.get(b"b").unwrap(), &b"2".to_vec());
    // a segment without `=` is skipped
    let req = Request::decode(b"GET /p?ab&c=d HTTP/1.1\r\n\r\n").unwrap();
    assert_eq!(req.params.get(b"ab"), None);
    assert_eq!(req.params.get(b"c").unwrap(), &b"d".to_vec());
}

#[test]
fn headers_trim_and_deduplicate() {
    let req = Request::decode(
        b"GET / HTTP/1.1\r\nA:  spaced  \r\nA: second\r\nEmpty:\r\nnocolonhere\r\nHost: h:8080\r\n\r\n",
    )
    .unwrap();
    // last write wins
    assert_eq!(req.head.get(b"A").unwrap(), &b"second".to_vec());
    // empty values are allowed
    assert_eq!(req.head.get(b"Empty").unwrap(), &b"".to_vec());
    // a line without a colon is skipped silently
    assert_eq!(req.head.get(b"nocolonhere"), None);
    // the split is on the first colon only
    assert_eq!(req.head.get(b"Host").unwrap(), &b"h:8080".to_vec());
}

#[test]
fn append_head_info_matches_decode() {
    let mut req = Request::new();
    req.append_head_info("Cookie: x=9\r\n");
    assert_eq!(req.head.get(b"Cookie").unwrap(), &b"x=9".to_vec());
    assert_eq!(req.cookie.get(b"x").unwrap(), &b"9".to_vec());
}

#[test]
fn raw_bytes_decode_back_to_the_same_request() {
    let input = b"POST /u?a=1 HTTP/1.1\r\nCookie: s=t\r\nContent-Length: 5\r\n\r\nhelloTRAILING";
    let req = Request::decode(input).unwrap();
    let again = Request::decode(&req.raw()).unwrap();
    assert_eq!(again.method(), req.method());
    assert_eq!(again.path, req.path);
    assert_eq!(again.protocol, req.protocol);
    assert_eq!(again.body, req.body);
    assert_eq!(again.raw(), req.raw());
    assert_eq!(again.head.get(b"Content-Length"), req.head.get(b"Content-Length"));
    assert_eq!(again.cookie.get(b"s"), req.cookie.get(b"s"));
    assert_eq!(again.params.get(b"a"), req.params.get(b"a"));
}

#[test]
fn completeness_tracks_headers_and_body() {
    // a GET is complete once its blank line has arrived
    assert!(!request_complete(b"GET / HTTP/1.1\r\nHost: x\r\n"));
    assert!(request_complete(b"GET / HTTP/1.1\r\nHost: x\r\n\r\n"));
    // a POST also needs its announced body bytes
    assert!(!request_complete(b"POST /u HTTP/1.1\r\nContent-Length: 5\r\n\r\nhel"));
    assert!(request_complete(b"POST /u HTTP/1.1\r\nContent-Length: 5\r\n\r\nhello"));
    assert!(request_complete(b"POST /u HTTP/1.1\r\nContent-Length: 5\r\n\r\nhelloEXTRA"));
    // without a usable length the body is not waited for
    assert!(request_complete(b"POST /u HTTP/1.1\r\n\r\n"));
    assert!(request_complete(b"POST /u HTTP/1.1\r\nContent-Length: zz\r\n\r\n"));
    // bytes that are no request are never complete
    assert!(!request_complete(b"GARBAGE\r\n\r\n"));
}

#[test]
fn response_decode_reads_status_and_body() {
    let input = b"HTTP/1.1 200 OK\r\nContent-Length:3\r\n\r\nabc";
    let resp = Response::decode(input).unwrap();
    assert_eq!(resp.protocol, b"HTTP/1.1".to_vec());
    assert_eq!(resp.status_code, b"200".to_vec());
    assert_eq!(resp.status_msg, b"OK".to_vec());
    assert_eq!(resp.content_length, 3);
    assert_eq!(resp.body, b"abc".to_vec());
}

#[test]
fn response_decode_rejects_non_responses() {
    let e = Response::decode(b"GARBAGE\r\n").unwrap_err();
    assert_eq!(e, "this is not an http response body".to_string());
}

#[test]
fn response_decode_reads_body_for_any_method_context() {
    // unlike a request, a response body follows Content-Length alone
    let resp = Response::decode(b"HTTP/1.0 503 busy\r\nContent-Length:2\r\n\r\nxyz").unwrap();
    assert_eq!(resp.body, b"xy".to_vec());
}

#[test]
fn serializer_emits_the_canonical_layout() {
    let req = Request::decode(b"GET /echo HTTP/1.1\r\n\r\n").unwrap();
    let mut resp = Response::new(&req, None);
    resp.set_body("OK");
    resp.status_code = b"200".to_vec();
    resp.status_msg = b"OK".to_vec();
    resp.make_raw();
    assert_eq!(resp.raw(), b"HTTP/1.1 200 OK\r\nContent-Length:2\r\n\r\nOK".to_vec());
    assert_eq!(resp.head.get(b"Content-Length").unwrap(), &b"2".to_vec());
}

#[test]
fn serialize_then_parse_round_trips() {
    let mut head = Dict::new();
    head.insert(b"X-One".to_vec(), b"alpha".to_vec());
    head.insert(b"Host".to_vec(), b"example".to_vec());
    // a stale Content-Length is overwritten by the serializer
    head.insert(b"Content-Length".to_vec(), b"999".to_vec());
    let mut resp = Response {
        protocol: b"HTTP/1.1".to_vec(),
        status_code: b"200".to_vec(),
        status_msg: b"OK".to_vec(),
        head,
        body: b"abc".to_vec(),
        content_length: 0,
        raw: Vec::new(),
        req_method: Method::DEFAULT,
        req_path: Vec::new(),
    };
    resp.make_raw();
    let back = Response::decode(&resp.raw()).unwrap();
    assert_eq!(back.status_code, b"200".to_vec());
    assert_eq!(back.status_msg, b"OK".to_vec());
    assert_eq!(back.body, b"abc".to_vec());
    assert_eq!(back.head.get(b"X-One").unwrap(), &b"alpha".to_vec());
    assert_eq!(back.head.get(b"Host").unwrap(), &b"example".to_vec());
    assert_eq!(back.head.get(b"Content-Length").unwrap(), &b"3".to_vec());
    assert_eq!(back.content_length, 3);
}

#[test]
fn serializer_keeps_a_parsed_reply_protocol() {
    // a backend's HTTP/1.0 reply re-serializes under its own version
    let mut resp = Response::decode(b"HTTP/1.0 200 OK\r\nContent-Length:3\r\n\r\nabc").unwrap();
    resp.make_raw();
    assert_eq!(resp.raw(), b"HTTP/1.0 200 OK\r\nContent-Length:3\r\n\r\nabc".to_vec());
    let back = Response::decode(&resp.raw()).unwrap();
    assert_eq!(back.protocol, b"HTTP/1.0".to_vec());
}

#[test]
fn default_responses_speak_http_1_1() {
    let req = Request::decode(b"GET /echo HTTP/1.1\r\n\r\n").unwrap();
    let resp = Response::new(&req, None);
    assert_eq!(resp.protocol, b"HTTP/1.1".to_vec());
}

#[test]
fn response_append_head_info_tracks_content_length() {
    let req = Request::decode(b"GET / HTTP/1.1\r\n\r\n").unwrap();
    let mut resp = Response::new(&req, None);
    resp.append_head_info("Content-Length: 41\r\n");
    assert_eq!(resp.content_length, 41);
    assert_eq!(resp.head.get(b"Content-Length").unwrap(), &b"41".to_vec());
    resp.append_head_info("Content-Length: oops\r\n");
    assert_eq!(resp.content_length, 0);
}

#[test]
fn set_and_append_body() {
    let req = Request::decode(b"GET / HTTP/1.1\r\n\r\n").unwrap();
    let mut resp = Response::new(&req, None);
    resp.set_body("ab");
    resp.append_body("cd");
    assert_eq!(resp.body, b"abcd".to_vec());
}
