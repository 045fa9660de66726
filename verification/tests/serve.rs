use humbird::engine::NetModel;
use humbird::http::Http;
use humbird::method::Method;
use humbird::request::Request;
use humbird::response::Response;
use humbird::router::Router;

type Handler = fn(Request, Response) -> Response;

fn echo_handler(_req: Request, mut res: Response) -> Response {
    res.set_body("OK");
    res
}

fn shout_handler(_req: Request, mut res: Response) -> Response {
    res.set_body("LOUD");
    res
}

#[test]
fn registered_path_invokes_its_handler() {
    let mut router: Router<Handler> = Router::new();
    router.register(b"/x".to_vec(), echo_handler);
    let req = Request::decode(b"GET /x HTTP/1.1\r\n\r\n").unwrap();
    let initial = Response::new(&req, None);
    let (back, res) = router.dispatch(req, initial);
    assert_eq!(back.path, b"/x".to_vec());
    assert_eq!(res.body, b"OK".to_vec());
}

#[test]
fn unregistered_path_gets_the_default_response() {
    let mut router: Router<Handler> = Router::new();
    router.register(b"/x".to_vec(), echo_handler);
    let req = Request::decode(b"GET /y HTTP/1.1\r\n\r\n").unwrap();
    let initial = Response::new(&req, None);
    let (_, res) = router.dispatch(req, initial);
    assert_eq!(res.body, b"<h1>404 Not Found</h1>".to_vec());
    assert_eq!(res.status_code, b"404".to_vec());
}

#[test]
fn register_replaces_an_existing_handler() {
    let mut router: Router<Handler> = Router::new();
    router.register(b"/x".to_vec(), echo_handler);
    router.register(b"/x".to_vec(), shout_handler);
    assert_eq!(router.len(), 1);
    let req = Request::decode(b"GET /x HTTP/1.1\r\n\r\n").unwrap();
    let initial = Response::new(&req, None);
    let (_, res) = router.dispatch(req, initial);
    assert_eq!(res.body, b"LOUD".to_vec());
}

#[test]
fn lookup_is_exact_byte_equality() {
    let mut router: Router<Handler> = Router::new();
    router.register(b"/x".to_vec(), echo_handler);
    assert!(router.lookup(b"/x").is_some());
    assert!(router.lookup(b"/x/").is_none());
    assert!(router.lookup(b"/X").is_none());
    assert!(router.lookup(b"/").is_none());
}

#[test]
fn missing_file_yields_404_page() {
    let req = Request::decode(b"GET /missing HTTP/1.1\r\nHost: x\r\n\r\n").unwrap();
    let res = Response::new(&req, None);
    assert_eq!(res.body, b"<h1>404 Not Found</h1>".to_vec());
    assert_eq!(res.status_code, b"404".to_vec());
}

#[test]
fn found_file_yields_its_bytes() {
    let req = Request::decode(b"GET / HTTP/1.1\r\nHost: x\r\n\r\n").unwrap();
    let res = Response::new(&req, Some(b"HELLO".to_vec()));
    assert_eq!(res.body, b"HELLO".to_vec());
    assert_eq!(res.status_code, b"200".to_vec());
}

#[test]
fn post_default_response_is_the_test_body() {
    let req = Request::decode(b"POST /u HTTP/1.1\r\nContent-Length: 5\r\n\r\nhello").unwrap();
    assert_eq!(req.body, b"hello".to_vec());
    let res = Response::new(&req, None);
    assert_eq!(res.body, b"response test".to_vec());
    assert_eq!(res.status_code, b"200".to_vec());
}

#[test]
fn other_methods_get_an_empty_default_body() {
    let req = Request::decode(b"PUT /u HTTP/1.1\r\n\r\n").unwrap();
    assert_eq!(req.method(), Method::PUT);
    let res = Response::new(&req, None);
    assert_eq!(res.body, Vec::<u8>::new());
    assert_eq!(res.status_code, Vec::<u8>::new());
}

#[test]
fn http_build_serves_the_echo_scenario() {
    let mut router: Router<Handler> = Router::new();
    router.register(b"/echo".to_vec(), echo_handler);
    let req = Request::decode(b"GET /echo HTTP/1.1\r\n\r\n").unwrap();
    let initial = Response::new(&req, None);
    let mut http = Http::build(req, initial, &router, NetModel::EventPoll);
    assert_eq!(http.net_model, NetModel::EventPoll);
    http.response.status_code = b"200".to_vec();
    http.response.status_msg = b"OK".to_vec();
    http.response.make_raw();
    let raw = http.response.raw();
    assert_eq!(raw, b"HTTP/1.1 200 OK\r\nContent-Length:2\r\n\r\nOK".to_vec());
}

#[test]
fn http_build_without_handler_keeps_the_default() {
    let router: Router<Handler> = Router::new();
    let req = Request::decode(b"GET / HTTP/1.1\r\nHost: x\r\n\r\n").unwrap();
    let initial = Response::new(&req, Some(b"HELLO".to_vec()));
    let http = Http::build(req, initial, &router, NetModel::Multithread);
    assert_eq!(http.response.body, b"HELLO".to_vec());
    assert_eq!(http.response.status_code, b"200".to_vec());
}

#[test]
fn a_thousand_requests_all_get_the_handler_answer() {
    let mut router: Router<Handler> = Router::new();
    router.register(b"/x".to_vec(), echo_handler);
    for _ in 0..1000 {
        let req = Request::decode(b"GET /x HTTP/1.1\r\n\r\n").unwrap();
        let initial = Response::new(&req, None);
        let (_, mut res) = router.dispatch(req, initial);
        res.status_code = b"200".to_vec();
        res.status_msg = b"OK".to_vec();
        res.make_raw();
        assert_eq!(res.raw(), b"HTTP/1.1 200 OK\r\nContent-Length:2\r\n\r\nOK".to_vec());
    }
}

#[test]
fn non_http_bytes_are_refused_before_serving() {
    assert!(Request::decode(b"GARBAGE\r\n").is_err());
    assert!(!Http::is("GARBAGE\r\n"));
}
